//! The project tree: project paths split into segments, gathered in a trie,
//! chains of single folders collapsed, and siblings ordered by name.
use vstd::prelude::*;
use crate::text::{
    chars_of,
    string_of,
    find_char,
    lemma_find_char,
    lemma_find_char_at,
    str_le,
    str_le_exec,
    push_str,
};
use crate::sort::{
    SortKey,
    sort_by,
    key_order,
    sort_by_key,
    lemma_sort_by_map,
    lemma_sort_by_contains,
    lemma_sort_by_permutation,
    lemma_sort_by_sorted,
    lemma_sort_by_distinct,
    is_sorted,
    total_preorder,
    ins,
    ins_pos,
    lemma_ins_pos,
};
use crate::text::{lemma_str_le_total, lemma_str_le_trans, lemma_str_le_antisym};
use crate::paths::strings_view;
use crate::memory::Project;

verus! {

/// A folder of the project tree; `project_key` is the real path of the
/// project that the folder is, where it is one.
pub struct Node {
    pub name: String,
    pub project_key: Option<String>,
    pub children: Vec<Node>,
}

/// A node of the tree as mathematical values.
pub struct NodeV {
    pub name: Seq<char>,
    pub key: Option<Seq<char>>,
    pub children: Seq<NodeV>,
}

pub open spec fn node_view(n: Node) -> NodeV
    decreases n, 1nat,
{
    NodeV {
        name: n.name@,
        key: match n.project_key {
            Some(k) => Some(k@),
            None => None,
        },
        children: nodes_view(n.children@),
    }
}

pub open spec fn nodes_view(s: Seq<Node>) -> Seq<NodeV>
    decreases s, 0nat,
{
    if s.len() == 0 {
        seq![]
    } else {
        nodes_view(s.drop_last()).push(node_view(s.last()))
    }
}

pub proof fn lemma_nodes_view(s: Seq<Node>)
    ensures
        nodes_view(s) == s.map_values(|n: Node| node_view(n)),
    decreases s.len(),
{
    if s.len() > 0 {
        lemma_nodes_view(s.drop_last());
        assert(s.map_values(|n: Node| node_view(n)) =~= s.drop_last().map_values(
            |n: Node| node_view(n),
        ).push(node_view(s.last())));
    } else {
        assert(s.map_values(|n: Node| node_view(n)) =~= seq![]);
    }
}

/// `seg` put in front of `rest`, unless it is empty.
pub open spec fn cons_segment(seg: Seq<char>, rest: Seq<Seq<char>>) -> Seq<Seq<char>> {
    if seg.len() > 0 {
        seq![seg] + rest
    } else {
        rest
    }
}

/// The non-empty parts of `p` between slashes, in order.
pub open spec fn segments(p: Seq<char>) -> Seq<Seq<char>>
    decreases p.len(),
{
    match find_char(p, '/', 0) {
        Some(j) => {
            if 0 <= j < p.len() {
                cons_segment(p.take(j), segments(p.skip(j + 1)))
            } else {
                seq![]
            }
        },
        None => cons_segment(p, seq![]),
    }
}

/// Splits a path at its slashes, dropping empty parts.
pub fn path_segments(path: &str) -> (res: Vec<String>)
    ensures
        strings_view(res@) == segments(path@),
{
    let v = chars_of(path);
    let n = v.len();
    let mut out: Vec<String> = Vec::new();
    let mut start: usize = 0;
    assert(v@.subrange(0, n as int) =~= v@);
    loop
        invariant
            v@ == path@,
            n == v@.len(),
            0 <= start <= n,
            segments(path@) == strings_view(out@) + segments(v@.subrange(start as int, n as int)),
        decreases n - start,
    {
        let ghost rest = v@.subrange(start as int, n as int);
        let mut j = start;
        while j < n && v[j] != '/'
            invariant
                start <= j <= n == v@.len(),
                forall|k: int| start <= k < j ==> v@[k] != '/',
            decreases n - j,
        {
            j = j + 1;
        }
        proof {
            lemma_find_char_at(rest, '/', 0, (j - start) as int);
        }
        let ghost seg = v@.subrange(start as int, j as int);
        assert(seg =~= rest.take(j - start));
        let ghost before = strings_view(out@);
        if j > start {
            out.push(string_of(&v, start, j));
        }
        if j > start {
            assert(strings_view(out@) =~= before.push(seg));
        } else {
            assert(strings_view(out@) =~= before);
        }
        if j == n {
            assert(rest =~= seg);
            if j > start {
                assert(strings_view(out@) =~= before + seq![seg]);
            }
            assert(strings_view(out@) =~= before + segments(rest));
            return out;
        }
        assert(rest.skip(j - start + 1) =~= v@.subrange(j + 1, n as int));
        assert(segments(rest) == cons_segment(seg, segments(v@.subrange(j + 1, n as int))));
        assert(strings_view(out@) + segments(v@.subrange(j + 1, n as int)) =~= before + segments(rest)) by {
            if j > start {
                assert(before.push(seg) + segments(v@.subrange(j + 1, n as int)) =~= before + (seq![seg] + segments(v@.subrange(j + 1, n as int))));
            }
        }
        start = j + 1;
    }
}

/// The first node of `f` at or after `i` whose name is `name`.
pub open spec fn find_name(f: Seq<NodeV>, name: Seq<char>, i: int) -> Option<int>
    decreases f.len() - i,
{
    if i < 0 || i >= f.len() {
        None
    } else if f[i].name == name {
        Some(i)
    } else {
        find_name(f, name, i + 1)
    }
}

/// A folder with nothing in it yet.
pub open spec fn empty_node(name: Seq<char>) -> NodeV {
    NodeV { name, key: None, children: seq![] }
}

/// `f` with the path `segs` added, its last folder marked as the project `key`.
pub open spec fn trie_insert(f: Seq<NodeV>, segs: Seq<Seq<char>>, key: Seq<char>) -> Seq<NodeV>
    decreases segs.len(),
{
    if segs.len() == 0 {
        f
    } else {
        let found = find_name(f, segs[0], 0);
        let f1 = if found is Some {
            f
        } else {
            f.push(empty_node(segs[0]))
        };
        let i = match found {
            Some(i) => i,
            None => f.len() as int,
        };
        let n = f1[i];
        let n2 = if segs.len() == 1 {
            NodeV { name: n.name, key: Some(key), children: n.children }
        } else {
            NodeV { name: n.name, key: n.key, children: trie_insert(n.children, segs.drop_first(), key) }
        };
        f1.update(i, n2)
    }
}

/// The trie of the paths `paths`, added in order.
pub open spec fn insert_all(paths: Seq<Seq<char>>) -> Seq<NodeV>
    decreases paths.len(),
{
    if paths.len() == 0 {
        seq![]
    } else {
        trie_insert(insert_all(paths.drop_last()), segments(paths.last()), paths.last())
    }
}

/// A folder that is no project and holds a single folder is merged with it,
/// names joined by `/`, as often as that applies; then the same is done below.
pub open spec fn collapse(n: NodeV) -> NodeV
    decreases n, 1nat,
{
    if n.key is None && n.children.len() == 1 {
        let c = collapse(n.children[0]);
        NodeV { name: n.name + seq!['/'] + c.name, key: c.key, children: c.children }
    } else {
        NodeV { name: n.name, key: n.key, children: collapse_all(n.children) }
    }
}

pub open spec fn collapse_all(s: Seq<NodeV>) -> Seq<NodeV>
    decreases s, 0nat,
{
    if s.len() == 0 {
        seq![]
    } else {
        collapse_all(s.drop_last()).push(collapse(s.last()))
    }
}

/// Orders nodes by name.
pub open spec fn name_le(a: NodeV, b: NodeV) -> bool {
    str_le(a.name, b.name)
}

/// Every level of the tree ordered by name.
pub open spec fn sort_forest(f: Seq<NodeV>) -> Seq<NodeV>
    decreases f, 2nat,
{
    sort_by(sort_each(f), |a: NodeV, b: NodeV| name_le(a, b))
}

pub open spec fn sort_each(f: Seq<NodeV>) -> Seq<NodeV>
    decreases f, 1nat,
{
    if f.len() == 0 {
        seq![]
    } else {
        sort_each(f.drop_last()).push(sort_node(f.last()))
    }
}

pub open spec fn sort_node(n: NodeV) -> NodeV
    decreases n, 3nat,
{
    NodeV { name: n.name, key: n.key, children: sort_forest(n.children) }
}

/// The tree of the real paths of `projects`.
pub open spec fn tree_of(paths: Seq<Seq<char>>) -> Seq<NodeV> {
    sort_forest(collapse_all(insert_all(paths)))
}

/// Adds the path `segments[from..]` to the forest `nodes`, its last folder
/// marked as the project `project_key`.
fn insert(nodes: &mut Vec<Node>, segments: &Vec<String>, from: usize, project_key: &str)
    requires
        from <= segments@.len(),
    ensures
        nodes_view(final(nodes)@) == trie_insert(
            nodes_view(old(nodes)@),
            strings_view(segments@).skip(from as int),
            project_key@,
        ),
    decreases segments@.len() - from,
{
    let ghost segs = strings_view(segments@).skip(from as int);
    let ghost f = nodes_view(nodes@);
    proof {
        lemma_nodes_view(nodes@);
    }
    if from >= segments.len() {
        assert(segs.len() == 0);
        return;
    }
    let head = &segments[from];
    assert(segs[0] == head@);
    let mut idx: usize = 0;
    while idx < nodes.len() && !(nodes[idx].name == *head)
        invariant
            0 <= idx <= nodes@.len(),
            f == nodes_view(nodes@),
            f == nodes@.map_values(|n: Node| node_view(n)),
            find_name(f, head@, 0) == find_name(f, head@, idx as int),
        decreases nodes@.len() - idx,
    {
        idx = idx + 1;
    }
    let ghost f1 = if idx < nodes.len() {
        f
    } else {
        f.push(empty_node(head@))
    };
    if idx == nodes.len() {
        nodes.push(Node { name: head.clone(), project_key: None, children: Vec::new() });
        assert(nodes_view(Seq::<Node>::empty()) =~= Seq::<NodeV>::empty());
    }
    proof {
        lemma_nodes_view(nodes@);
    }
    assert(nodes@.map_values(|n: Node| node_view(n)) =~= f1);
    let ghost before = nodes@;
    let mut node = nodes.remove(idx);
    assert(node_view(node) == f1[idx as int]);
    if from + 1 == segments.len() {
        node.project_key = Some(project_key.to_string());
        assert(segs.len() == 1);
    } else {
        insert(&mut node.children, segments, from + 1, project_key);
        assert(strings_view(segments@).skip(from + 1) =~= segs.drop_first());
    }
    nodes.insert(idx, node);
    proof {
        lemma_nodes_view(nodes@);
        assert(nodes@ =~= before.update(idx as int, node));
        assert(nodes@.map_values(|n: Node| node_view(n)) =~= f1.update(idx as int, node_view(node)));
    }
}

/// Merges a folder that is no project with its only folder, as often as that
/// applies, then does the same in every folder below.
fn collapse_node(node: Node) -> (res: Node)
    ensures
        node_view(res) == collapse(node_view(node)),
    decreases node, 1nat,
{
    let ghost old_children = node.children;
    let Node { name, project_key, children } = node;
    proof {
        lemma_nodes_view(children@);
    }
    if project_key.is_none() && children.len() == 1 {
        let mut children = children;
        let child = children.pop().unwrap();
        assert(child == old_children@[0]);
        let c = collapse_node(child);
        let mut merged = name;
        merged.push('/');
        push_str(&mut merged, c.name.as_str());
        let res = Node { name: merged, project_key: c.project_key, children: c.children };
        assert(node_view(res).name =~= node_view(node).name + seq!['/'] + node_view(c).name);
        res
    } else {
        let res = Node { name, project_key, children: collapse_nodes(children) };
        res
    }
}

/// Collapses every tree of a forest.
fn collapse_nodes(nodes: Vec<Node>) -> (res: Vec<Node>)
    ensures
        nodes_view(res@) == collapse_all(nodes_view(nodes@)),
    decreases nodes, 0nat,
{
    let ghost s = nodes@;
    proof {
        lemma_nodes_view(s);
        lemma_collapse_all(nodes_view(s));
    }
    let mut rest = nodes;
    let mut out: Vec<Node> = Vec::new();
    let n = rest.len();
    let mut i: usize = 0;
    while i < n
        invariant
            n == s.len(),
            0 <= i <= n,
            s == nodes@,
            rest@ == s.skip(i as int),
            out@.len() == i,
            forall|k: int| 0 <= k < i ==> #[trigger] node_view(out@[k]) == collapse(node_view(s[k])),
        decreases n - i,
    {
        let x = rest.remove(0);
        assert(x == s[i as int]);
        assert(rest@ =~= s.skip(i + 1));
        let y = collapse_node(x);
        out.push(y);
        i = i + 1;
    }
    proof {
        lemma_nodes_view(out@);
        assert(out@.map_values(|v: Node| node_view(v)) =~= nodes_view(s).map_values(|v: NodeV| collapse(v)));
    }
    out
}

pub proof fn lemma_collapse_all(s: Seq<NodeV>)
    ensures
        collapse_all(s) == s.map_values(|n: NodeV| collapse(n)),
    decreases s.len(),
{
    if s.len() > 0 {
        lemma_collapse_all(s.drop_last());
        assert(s.map_values(|n: NodeV| collapse(n)) =~= s.drop_last().map_values(|n: NodeV| collapse(n)).push(collapse(s.last())));
    } else {
        assert(s.map_values(|n: NodeV| collapse(n)) =~= seq![]);
    }
}

pub proof fn lemma_sort_each(s: Seq<NodeV>)
    ensures
        sort_each(s) == s.map_values(|n: NodeV| sort_node(n)),
    decreases s.len(),
{
    if s.len() > 0 {
        lemma_sort_each(s.drop_last());
        assert(s.map_values(|n: NodeV| sort_node(n)) =~= s.drop_last().map_values(|n: NodeV| sort_node(n)).push(sort_node(s.last())));
    } else {
        assert(s.map_values(|n: NodeV| sort_node(n)) =~= seq![]);
    }
}

impl SortKey for Node {
    open spec fn key_le(&self, other: &Self) -> bool {
        str_le(self.name@, other.name@)
    }

    fn le(&self, other: &Self) -> (res: bool) {
        str_le_exec(self.name.as_str(), other.name.as_str())
    }
}

/// Orders the nodes of every level of a forest by name.
fn sort_nodes(nodes: Vec<Node>) -> (res: Vec<Node>)
    ensures
        nodes_view(res@) == sort_forest(nodes_view(nodes@)),
    decreases nodes,
{
    let ghost s = nodes@;
    proof {
        lemma_nodes_view(s);
        lemma_sort_each(nodes_view(s));
    }
    let mut rest = nodes;
    let mut out: Vec<Node> = Vec::new();
    let n = rest.len();
    let mut i: usize = 0;
    while i < n
        invariant
            n == s.len(),
            0 <= i <= n,
            s == nodes@,
            rest@ == s.skip(i as int),
            out@.len() == i,
            forall|k: int| 0 <= k < i ==> #[trigger] node_view(out@[k]) == sort_node(node_view(s[k])),
        decreases n - i,
    {
        let x = rest.remove(0);
        assert(x == s[i as int]);
        assert(rest@ =~= s.skip(i + 1));
        let Node { name, project_key, children } = x;
        let y = Node { name, project_key, children: sort_nodes(children) };
        out.push(y);
        i = i + 1;
    }
    let ghost u = out@;
    proof {
        lemma_nodes_view(u);
        assert(u.map_values(|v: Node| node_view(v)) =~= nodes_view(s).map_values(|v: NodeV| sort_node(v)));
        assert(nodes_view(u) == sort_each(nodes_view(s)));
        lemma_sort_by_map(u, |v: Node| node_view(v), key_order::<Node>(), |a: NodeV, b: NodeV| name_le(a, b));
    }
    let res = sort_by_key(out);
    proof {
        lemma_nodes_view(res@);
    }
    res
}

/// The project tree: the real paths of `projects` split at `/` into a trie,
/// chains of folders that are no project and hold one folder collapsed into
/// one node, and every level ordered by name.
pub fn build_tree(projects: &[Project]) -> (res: Vec<Node>)
    ensures
        nodes_view(res@) == tree_of(projects@.map_values(|p: Project| p.real_path@)),
{
    let ghost paths = projects@.map_values(|p: Project| p.real_path@);
    let mut roots: Vec<Node> = Vec::new();
    assert(nodes_view(roots@) =~= seq![]);
    let n = projects.len();
    let mut i: usize = 0;
    while i < n
        invariant
            n == projects@.len() == paths.len(),
            paths == projects@.map_values(|p: Project| p.real_path@),
            0 <= i <= n,
            nodes_view(roots@) == insert_all(paths.take(i as int)),
        decreases n - i,
    {
        let path = projects[i].real_path.as_str();
        let segs = path_segments(path);
        insert(&mut roots, &segs, 0, path);
        assert(strings_view(segs@).skip(0) =~= strings_view(segs@));
        assert(paths.take(i + 1).drop_last() =~= paths.take(i as int));
        i = i + 1;
    }
    assert(paths.take(n as int) =~= paths);
    let collapsed = collapse_nodes(roots);
    sort_nodes(collapsed)
}

/// `p` holds of `n` and of every node below it.
pub open spec fn tree_all(n: NodeV, p: spec_fn(NodeV) -> bool) -> bool
    decreases n, 1nat,
{
    p(n) && forest_all(n.children, p)
}

/// `p` holds of every node of the forest `f`, at every depth.
pub open spec fn forest_all(f: Seq<NodeV>, p: spec_fn(NodeV) -> bool) -> bool
    decreases f, 0nat,
{
    if f.len() == 0 {
        true
    } else {
        forest_all(f.drop_last(), p) && tree_all(f.last(), p)
    }
}

pub proof fn lemma_forest_all(f: Seq<NodeV>, p: spec_fn(NodeV) -> bool)
    ensures
        forest_all(f, p) <==> forall|i: int| 0 <= i < f.len() ==> #[trigger] tree_all(f[i], p),
    decreases f.len(),
{
    if f.len() > 0 {
        lemma_forest_all(f.drop_last(), p);
        if forest_all(f, p) {
            assert forall|i: int| 0 <= i < f.len() implies #[trigger] tree_all(f[i], p) by {
                if i < f.len() - 1 {
                    assert(f[i] == f.drop_last()[i]);
                }
            }
        }
        if forall|i: int| 0 <= i < f.len() ==> #[trigger] tree_all(f[i], p) {
            assert forall|i: int| 0 <= i < f.drop_last().len() implies #[trigger] tree_all(f.drop_last()[i], p) by {
                assert(f[i] == f.drop_last()[i]);
                assert(tree_all(f[i], p));
            }
            assert(tree_all(f[f.len() - 1], p));
        }
    }
}

pub proof fn lemma_sort_forest_len(f: Seq<NodeV>)
    ensures
        sort_forest(f).len() == f.len(),
{
    lemma_sort_each(f);
    lemma_sort_by_permutation(sort_each(f), |a: NodeV, b: NodeV| name_le(a, b));
}

/// Ordering the tree keeps every property of nodes that ordering the
/// children of a node keeps.
pub proof fn lemma_sort_forest_all(f: Seq<NodeV>, p: spec_fn(NodeV) -> bool)
    requires
        forall|n: NodeV| #[trigger] p(n) ==> p(sort_node(n)),
        forest_all(f, p),
    ensures
        forest_all(sort_forest(f), p),
    decreases f,
{
    let le = |a: NodeV, b: NodeV| name_le(a, b);
    let r = sort_forest(f);
    lemma_sort_each(f);
    lemma_forest_all(f, p);
    assert forall|k: int| 0 <= k < r.len() implies #[trigger] tree_all(r[k], p) by {
        lemma_sort_by_contains(sort_each(f), le, k);
        let j = choose|j: int| 0 <= j < sort_each(f).len() && sort_each(f)[j] == r[k];
        let x = f[j];
        assert(tree_all(x, p));
        lemma_sort_forest_all(x.children, p);
        assert(r[k] == sort_node(x));
    }
    lemma_forest_all(r, p);
}

/// The node is a project, or it holds other than exactly one folder.
pub open spec fn no_single_chain(n: NodeV) -> bool {
    n.key is Some || n.children.len() != 1
}

proof fn lemma_collapse_all_len(s: Seq<NodeV>)
    ensures
        collapse_all(s).len() == s.len(),
{
    lemma_collapse_all(s);
}

proof fn lemma_collapse_no_chain(n: NodeV)
    ensures
        tree_all(collapse(n), |m: NodeV| no_single_chain(m)),
    decreases n, 1nat,
{
    let p = |m: NodeV| no_single_chain(m);
    if n.key is None && n.children.len() == 1 {
        lemma_collapse_no_chain(n.children[0]);
    } else {
        lemma_collapse_all_no_chain(n.children);
        lemma_collapse_all_len(n.children);
    }
}

proof fn lemma_collapse_all_no_chain(s: Seq<NodeV>)
    ensures
        forest_all(collapse_all(s), |m: NodeV| no_single_chain(m)),
    decreases s, 0nat,
{
    if s.len() > 0 {
        lemma_collapse_all_no_chain(s.drop_last());
        lemma_collapse_no_chain(s.last());
        let c = collapse_all(s);
        assert(c.drop_last() =~= collapse_all(s.drop_last()));
    }
}

/// Law: in the tree, no folder that is no project holds exactly one
/// folder: such chains are collapsed into one node.
pub proof fn lemma_tree_has_no_single_chains(paths: Seq<Seq<char>>)
    ensures
        forest_all(tree_of(paths), |m: NodeV| no_single_chain(m)),
{
    let p = |m: NodeV| no_single_chain(m);
    lemma_collapse_all_no_chain(insert_all(paths));
    assert forall|n: NodeV| #[trigger] p(n) implies p(sort_node(n)) by {
        lemma_sort_forest_len(n.children);
    }
    lemma_sort_forest_all(collapse_all(insert_all(paths)), p);
}

/// The children of the node are ordered by name.
pub open spec fn children_sorted(n: NodeV) -> bool {
    is_sorted(n.children, |a: NodeV, b: NodeV| name_le(a, b))
}

pub proof fn lemma_name_le_total_preorder()
    ensures
        total_preorder(|a: NodeV, b: NodeV| name_le(a, b)),
{
    assert forall|a: NodeV, b: NodeV| name_le(a, b) || name_le(b, a) by {
        lemma_str_le_total(a.name, b.name);
    }
    assert forall|a: NodeV, b: NodeV, c: NodeV| name_le(a, b) && name_le(b, c) implies name_le(a, c) by {
        lemma_str_le_trans(a.name, b.name, c.name);
    }
}

/// Law: every level of an ordered forest is ordered by name.
pub proof fn lemma_sort_forest_sorted(f: Seq<NodeV>)
    ensures
        is_sorted(sort_forest(f), |a: NodeV, b: NodeV| name_le(a, b)),
        forest_all(sort_forest(f), |m: NodeV| children_sorted(m)),
    decreases f,
{
    let le = |a: NodeV, b: NodeV| name_le(a, b);
    let p = |m: NodeV| children_sorted(m);
    lemma_name_le_total_preorder();
    lemma_sort_by_sorted(sort_each(f), le);
    let r = sort_forest(f);
    lemma_sort_each(f);
    assert forall|k: int| 0 <= k < r.len() implies #[trigger] tree_all(r[k], p) by {
        lemma_sort_by_contains(sort_each(f), le, k);
        let j = choose|j: int| 0 <= j < sort_each(f).len() && sort_each(f)[j] == r[k];
        let x = f[j];
        lemma_sort_forest_sorted(x.children);
        assert(r[k] == sort_node(x));
    }
    lemma_forest_all(r, p);
}

/// Law: the roots of the tree, and the children of every node, are ordered
/// by name.
pub proof fn lemma_tree_is_ordered(paths: Seq<Seq<char>>)
    ensures
        is_sorted(tree_of(paths), |a: NodeV, b: NodeV| name_le(a, b)),
        forest_all(tree_of(paths), |m: NodeV| children_sorted(m)),
{
    lemma_sort_forest_sorted(collapse_all(insert_all(paths)));
}

/// The node, or one below it, is the project `q`.
pub open spec fn tree_has_key(n: NodeV, q: Seq<char>) -> bool
    decreases n, 1nat,
{
    n.key == Some(q) || forest_has_key(n.children, q)
}

/// Some node of the forest, at any depth, is the project `q`.
pub open spec fn forest_has_key(f: Seq<NodeV>, q: Seq<char>) -> bool
    decreases f, 0nat,
{
    if f.len() == 0 {
        false
    } else {
        forest_has_key(f.drop_last(), q) || tree_has_key(f.last(), q)
    }
}

pub proof fn lemma_forest_has_key(f: Seq<NodeV>, q: Seq<char>)
    ensures
        forest_has_key(f, q) <==> exists|i: int| 0 <= i < f.len() && #[trigger] tree_has_key(f[i], q),
    decreases f.len(),
{
    if f.len() > 0 {
        lemma_forest_has_key(f.drop_last(), q);
        if forest_has_key(f.drop_last(), q) {
            let i = choose|i: int| 0 <= i < f.drop_last().len() && #[trigger] tree_has_key(f.drop_last()[i], q);
            assert(f[i] == f.drop_last()[i]);
        }
        if tree_has_key(f.last(), q) {
            assert(tree_has_key(f[f.len() - 1], q));
        }
        if exists|i: int| 0 <= i < f.len() && #[trigger] tree_has_key(f[i], q) {
            let i = choose|i: int| 0 <= i < f.len() && #[trigger] tree_has_key(f[i], q);
            if i < f.len() - 1 {
                assert(f.drop_last()[i] == f[i]);
            }
        }
    }
}

proof fn lemma_collapse_keys(n: NodeV, q: Seq<char>)
    ensures
        tree_has_key(collapse(n), q) == tree_has_key(n, q),
    decreases n, 1nat,
{
    if n.key is None && n.children.len() == 1 {
        lemma_collapse_keys(n.children[0], q);
        lemma_forest_has_key(n.children, q);
    } else {
        lemma_collapse_all_keys(n.children, q);
    }
}

proof fn lemma_collapse_all_keys(s: Seq<NodeV>, q: Seq<char>)
    ensures
        forest_has_key(collapse_all(s), q) == forest_has_key(s, q),
    decreases s, 0nat,
{
    if s.len() > 0 {
        lemma_collapse_all_keys(s.drop_last(), q);
        lemma_collapse_keys(s.last(), q);
        assert(collapse_all(s).drop_last() =~= collapse_all(s.drop_last()));
    }
}

proof fn lemma_sort_forest_keys(f: Seq<NodeV>, q: Seq<char>)
    ensures
        forest_has_key(sort_forest(f), q) == forest_has_key(f, q),
    decreases f,
{
    broadcast use vstd::seq_lib::to_multiset_contains;

    let le = |a: NodeV, b: NodeV| name_le(a, b);
    let e = sort_each(f);
    let r = sort_forest(f);
    lemma_sort_each(f);
    lemma_sort_by_permutation(e, le);
    lemma_forest_has_key(f, q);
    lemma_forest_has_key(r, q);
    if forest_has_key(r, q) {
        let k = choose|k: int| 0 <= k < r.len() && #[trigger] tree_has_key(r[k], q);
        lemma_sort_by_contains(e, le, k);
        let j = choose|j: int| 0 <= j < e.len() && e[j] == r[k];
        lemma_sort_forest_keys(f[j].children, q);
        assert(tree_has_key(f[j], q));
    }
    if forest_has_key(f, q) {
        let j = choose|j: int| 0 <= j < f.len() && #[trigger] tree_has_key(f[j], q);
        lemma_sort_forest_keys(f[j].children, q);
        assert(tree_has_key(e[j], q));
        assert(e.contains(e[j]));
        assert(e.to_multiset().count(e[j]) > 0);
        assert(r.contains(e[j]));
        let k = choose|k: int| 0 <= k < r.len() && r[k] == e[j];
        assert(tree_has_key(r[k], q));
    }
}

/// The key of the node at the path `segs` of names, where there is one.
pub open spec fn key_at(f: Seq<NodeV>, segs: Seq<Seq<char>>) -> Option<Seq<char>>
    decreases segs.len(),
{
    if segs.len() == 0 {
        None
    } else {
        match find_name(f, segs[0], 0) {
            Some(i) => {
                if 0 <= i < f.len() {
                    if segs.len() == 1 {
                        f[i].key
                    } else {
                        key_at(f[i].children, segs.drop_first())
                    }
                } else {
                    None
                }
            },
            None => None,
        }
    }
}

proof fn lemma_find_name(f: Seq<NodeV>, name: Seq<char>, i: int)
    requires
        0 <= i,
    ensures
        match find_name(f, name, i) {
            Some(j) => i <= j < f.len() && f[j].name == name,
            None => forall|k: int| i <= k < f.len() ==> f[k].name != name,
        },
    decreases f.len() - i,
{
    if i < f.len() && f[i].name != name {
        lemma_find_name(f, name, i + 1);
    }
}

/// Forests with the same names at the same places find the same names.
proof fn lemma_find_name_same_names(f: Seq<NodeV>, g: Seq<NodeV>, name: Seq<char>, i: int)
    requires
        f.len() == g.len(),
        forall|k: int| 0 <= k < f.len() ==> f[k].name == #[trigger] g[k].name,
    ensures
        find_name(f, name, i) == find_name(g, name, i),
    decreases f.len() - i,
{
    if 0 <= i < f.len() && f[i].name != name {
        lemma_find_name_same_names(f, g, name, i + 1);
    }
}

proof fn lemma_find_name_push(f: Seq<NodeV>, x: NodeV, name: Seq<char>, i: int)
    requires
        0 <= i <= f.len(),
    ensures
        find_name(f.push(x), name, i) == (match find_name(f, name, i) {
            Some(j) => Some(j),
            None => if x.name == name {
                Some(f.len() as int)
            } else {
                None
            },
        }),
    decreases f.len() - i,
{
    if i < f.len() && f[i].name != name {
        lemma_find_name_push(f, x, name, i + 1);
    }
    if i < f.len() {
        assert(f.push(x)[i] == f[i]);
    } else {
        assert(f.push(x)[i] == x);
        assert(find_name(f.push(x), name, i + 1) is None);
    }
}

/// A path `segs` just added is found, marked as the project `key`.
proof fn lemma_trie_insert_found(f: Seq<NodeV>, segs: Seq<Seq<char>>, key: Seq<char>)
    requires
        segs.len() > 0,
    ensures
        key_at(trie_insert(f, segs, key), segs) == Some(key),
    decreases segs.len(),
{
    let found = find_name(f, segs[0], 0);
    let f1 = if found is Some { f } else { f.push(empty_node(segs[0])) };
    let i = match found { Some(i) => i, None => f.len() as int };
    lemma_find_name(f, segs[0], 0);
    lemma_find_name_push(f, empty_node(segs[0]), segs[0], 0);
    assert(find_name(f1, segs[0], 0) == Some(i));
    let n = f1[i];
    let n2 = if segs.len() == 1 {
        NodeV { name: n.name, key: Some(key), children: n.children }
    } else {
        NodeV { name: n.name, key: n.key, children: trie_insert(n.children, segs.drop_first(), key) }
    };
    let r = f1.update(i, n2);
    assert(r == trie_insert(f, segs, key));
    lemma_find_name_same_names(f1, r, segs[0], 0);
    if segs.len() > 1 {
        lemma_trie_insert_found(n.children, segs.drop_first(), key);
    }
}

/// Adding a path leaves the keys at every other path as they were.
proof fn lemma_trie_insert_other(f: Seq<NodeV>, segs: Seq<Seq<char>>, key: Seq<char>, s: Seq<Seq<char>>)
    requires
        s != segs,
    ensures
        key_at(trie_insert(f, segs, key), s) == key_at(f, s),
    decreases segs.len(),
{
    if segs.len() > 0 && s.len() > 0 {
        let found = find_name(f, segs[0], 0);
        let f1 = if found is Some { f } else { f.push(empty_node(segs[0])) };
        let i = match found { Some(i) => i, None => f.len() as int };
        lemma_find_name(f, segs[0], 0);
        lemma_find_name_push(f, empty_node(segs[0]), s[0], 0);
        let n = f1[i];
        let n2 = if segs.len() == 1 {
            NodeV { name: n.name, key: Some(key), children: n.children }
        } else {
            NodeV { name: n.name, key: n.key, children: trie_insert(n.children, segs.drop_first(), key) }
        };
        let r = f1.update(i, n2);
        assert(r == trie_insert(f, segs, key));
        lemma_find_name_same_names(f1, r, s[0], 0);
        lemma_find_name(f, s[0], 0);
        lemma_find_name(f1, s[0], 0);
        if s[0] == segs[0] {
            lemma_find_name_push(f, empty_node(segs[0]), segs[0], 0);
            assert(find_name(r, s[0], 0) == Some(i));
            if segs.len() == 1 {
                assert(s.len() > 1) by {
                    if s.len() == 1 {
                        assert(s =~= segs);
                    }
                }
                if found is None {
                    assert(key_at(n.children, s.drop_first()) is None) by {
                        assert(n.children.len() == 0);
                        if s.drop_first().len() > 0 {
                            lemma_find_name(n.children, s.drop_first()[0], 0);
                        }
                    }
                }
            } else if s.len() > 1 {
                assert(s.drop_first() != segs.drop_first()) by {
                    if s.drop_first() == segs.drop_first() {
                        assert forall|k: int| 0 <= k < s.len() implies s[k] == segs[k] by {
                            if k > 0 {
                                assert(s[k] == s.drop_first()[k - 1]);
                                assert(segs[k] == segs.drop_first()[k - 1]);
                            }
                        }
                        assert(s =~= segs);
                    }
                }
                lemma_trie_insert_other(n.children, segs.drop_first(), key, s.drop_first());
                if found is None {
                    assert(key_at(n.children, s.drop_first()) is None) by {
                        if s.drop_first().len() > 0 {
                            lemma_find_name(n.children, s.drop_first()[0], 0);
                        }
                    }
                }
            }
        } else {
            match find_name(f, s[0], 0) {
                Some(j) => {
                    assert(find_name(r, s[0], 0) == Some(j));
                    assert(j != i);
                    assert(r[j] == f[j]);
                },
                None => {
                    assert(find_name(r, s[0], 0) is None);
                },
            }
        }
    }
}

/// The last of `paths` whose segments are `s`, where `s` is not empty.
pub open spec fn last_with_segments(paths: Seq<Seq<char>>, s: Seq<Seq<char>>) -> Option<Seq<char>>
    decreases paths.len(),
{
    if paths.len() == 0 || s.len() == 0 {
        None
    } else if segments(paths.last()) == s {
        Some(paths.last())
    } else {
        last_with_segments(paths.drop_last(), s)
    }
}

proof fn lemma_insert_all_key_at(paths: Seq<Seq<char>>, s: Seq<Seq<char>>)
    ensures
        key_at(insert_all(paths), s) == last_with_segments(paths, s),
    decreases paths.len(),
{
    if paths.len() == 0 {
        if s.len() > 0 {
            lemma_find_name(seq![], s[0], 0);
        }
    } else {
        lemma_insert_all_key_at(paths.drop_last(), s);
        let segs = segments(paths.last());
        if segs == s && s.len() > 0 {
            lemma_trie_insert_found(insert_all(paths.drop_last()), segs, paths.last());
        } else if s.len() > 0 {
            lemma_trie_insert_other(insert_all(paths.drop_last()), segs, paths.last(), s);
        }
    }
}

proof fn lemma_key_at_has_key(f: Seq<NodeV>, s: Seq<Seq<char>>)
    ensures
        key_at(f, s) matches Some(q) ==> forest_has_key(f, q),
    decreases s.len(),
{
    if s.len() > 0 {
        lemma_find_name(f, s[0], 0);
        if let Some(i) = find_name(f, s[0], 0) {
            if let Some(q) = key_at(f, s) {
                if s.len() > 1 {
                    lemma_key_at_has_key(f[i].children, s.drop_first());
                }
                assert(tree_has_key(f[i], q));
                lemma_forest_has_key(f, q);
            }
        }
    }
}

proof fn lemma_last_with_segments(paths: Seq<Seq<char>>, s: Seq<Seq<char>>)
    ensures
        last_with_segments(paths, s) matches Some(q) ==> paths.contains(q) && segments(q) == s,
        s.len() > 0 && (exists|i: int| 0 <= i < paths.len() && segments(#[trigger] paths[i]) == s) ==> last_with_segments(paths, s) is Some,
    decreases paths.len(),
{
    if paths.len() > 0 && s.len() > 0 {
        lemma_last_with_segments(paths.drop_last(), s);
        if let Some(q) = last_with_segments(paths, s) {
            if segments(paths.last()) != s {
                let k = choose|k: int| 0 <= k < paths.drop_last().len() && paths.drop_last()[k] == q;
                assert(paths[k] == q);
            } else {
                assert(paths[paths.len() - 1] == q);
            }
        }
        if exists|i: int| 0 <= i < paths.len() && segments(#[trigger] paths[i]) == s {
            let i = choose|i: int| 0 <= i < paths.len() && segments(#[trigger] paths[i]) == s;
            if i < paths.len() - 1 {
                assert(paths.drop_last()[i] == paths[i]);
            }
        }
    }
}

/// Law: every project whose path has a non-empty segment is in the tree:
/// the tree holds, as a project key, the last of the paths that split into
/// the same segments (the path itself where no later one does).
pub proof fn lemma_tree_holds_every_project(paths: Seq<Seq<char>>, i: int)
    requires
        0 <= i < paths.len(),
        segments(paths[i]).len() > 0,
    ensures
        last_with_segments(paths, segments(paths[i])) matches Some(q) && segments(q) == segments(
            paths[i],
        ) && paths.contains(q) && forest_has_key(tree_of(paths), q),
        (forall|j: int| i < j < paths.len() ==> segments(#[trigger] paths[j]) != segments(paths[i]))
            ==> forest_has_key(tree_of(paths), paths[i]),
{
    let s = segments(paths[i]);
    lemma_last_with_segments(paths, s);
    let q = last_with_segments(paths, s)->0;
    lemma_insert_all_key_at(paths, s);
    lemma_key_at_has_key(insert_all(paths), s);
    lemma_collapse_all_keys(insert_all(paths), q);
    lemma_sort_forest_keys(collapse_all(insert_all(paths)), q);
    if forall|j: int| i < j < paths.len() ==> segments(#[trigger] paths[j]) != segments(paths[i]) {
        lemma_last_is(paths, s, i);
    }
}

proof fn lemma_last_is(paths: Seq<Seq<char>>, s: Seq<Seq<char>>, i: int)
    requires
        0 <= i < paths.len(),
        s.len() > 0,
        segments(paths[i]) == s,
        forall|j: int| i < j < paths.len() ==> segments(#[trigger] paths[j]) != s,
    ensures
        last_with_segments(paths, s) == Some(paths[i]),
    decreases paths.len(),
{
    if i < paths.len() - 1 {
        assert(segments(paths[paths.len() - 1]) != s);
        assert forall|j: int| i < j < paths.drop_last().len() implies segments(#[trigger] paths.drop_last()[j]) != s by {
            assert(paths.drop_last()[j] == paths[j]);
        }
        lemma_last_is(paths.drop_last(), s, i);
        assert(paths.drop_last()[i] == paths[i]);
    }
}

proof fn lemma_trie_insert_keys(f: Seq<NodeV>, segs: Seq<Seq<char>>, key: Seq<char>, q: Seq<char>)
    ensures
        forest_has_key(trie_insert(f, segs, key), q) ==> forest_has_key(f, q) || (q == key
            && segs.len() > 0),
    decreases segs.len(),
{
    if segs.len() > 0 {
        let found = find_name(f, segs[0], 0);
        let f1 = if found is Some { f } else { f.push(empty_node(segs[0])) };
        let i = match found { Some(i) => i, None => f.len() as int };
        lemma_find_name(f, segs[0], 0);
        let n = f1[i];
        let n2 = if segs.len() == 1 {
            NodeV { name: n.name, key: Some(key), children: n.children }
        } else {
            NodeV { name: n.name, key: n.key, children: trie_insert(n.children, segs.drop_first(), key) }
        };
        let r = f1.update(i, n2);
        assert(r == trie_insert(f, segs, key));
        lemma_forest_has_key(r, q);
        lemma_forest_has_key(f, q);
        if forest_has_key(r, q) && !(q == key) {
            let k = choose|k: int| 0 <= k < r.len() && #[trigger] tree_has_key(r[k], q);
            if k != i {
                assert(r[k] == f[k]);
            } else {
                if segs.len() > 1 {
                    lemma_trie_insert_keys(n.children, segs.drop_first(), key, q);
                }
                if found is None {
                    assert(!forest_has_key(n.children, q));
                }
                assert(tree_has_key(n, q));
                assert(tree_has_key(f[i], q));
            }
        }
    }
}

proof fn lemma_insert_all_keys(paths: Seq<Seq<char>>, q: Seq<char>)
    ensures
        forest_has_key(insert_all(paths), q) ==> paths.contains(q) && segments(q).len() > 0,
    decreases paths.len(),
{
    if paths.len() > 0 {
        lemma_insert_all_keys(paths.drop_last(), q);
        lemma_trie_insert_keys(insert_all(paths.drop_last()), segments(paths.last()), paths.last(), q);
        if forest_has_key(insert_all(paths), q) {
            if forest_has_key(insert_all(paths.drop_last()), q) {
                let k = choose|k: int| 0 <= k < paths.drop_last().len() && paths.drop_last()[k] == q;
                assert(paths[k] == q);
            } else {
                assert(paths[paths.len() - 1] == q);
            }
        }
    } else {
        assert(!forest_has_key(seq![], q));
    }
}


/// The full name of a node called `name` under a node whose full name is
/// `prefix` (`None` at the root): the two joined by `/`.
pub open spec fn full_name(prefix: Option<Seq<char>>, name: Seq<char>) -> Seq<char> {
    match prefix {
        None => name,
        Some(p) => p + seq!['/'] + name,
    }
}

/// The full name reached from `prefix` through the names `segs`.
pub open spec fn joined(prefix: Option<Seq<char>>, segs: Seq<Seq<char>>) -> Option<Seq<char>>
    decreases segs.len(),
{
    if segs.len() == 0 {
        prefix
    } else {
        joined(Some(full_name(prefix, segs[0])), segs.drop_first())
    }
}

/// Each project node below `n`, and `n` itself, sits where its path is: the
/// names on the way to it, joined by `/`, are the segments of its project
/// path joined by `/`.
pub open spec fn tree_placed(n: NodeV, prefix: Option<Seq<char>>) -> bool
    decreases n, 1nat,
{
    &&& (n.key matches Some(q) ==> joined(None, segments(q)) == Some(full_name(prefix, n.name)))
    &&& forest_placed(n.children, Some(full_name(prefix, n.name)))
}

pub open spec fn forest_placed(f: Seq<NodeV>, prefix: Option<Seq<char>>) -> bool
    decreases f, 0nat,
{
    if f.len() == 0 {
        true
    } else {
        forest_placed(f.drop_last(), prefix) && tree_placed(f.last(), prefix)
    }
}

pub proof fn lemma_forest_placed(f: Seq<NodeV>, prefix: Option<Seq<char>>)
    ensures
        forest_placed(f, prefix) <==> forall|i: int| 0 <= i < f.len() ==> #[trigger] tree_placed(f[i], prefix),
    decreases f.len(),
{
    if f.len() > 0 {
        lemma_forest_placed(f.drop_last(), prefix);
        if forest_placed(f, prefix) {
            assert forall|i: int| 0 <= i < f.len() implies #[trigger] tree_placed(f[i], prefix) by {
                if i < f.len() - 1 {
                    assert(f[i] == f.drop_last()[i]);
                }
            }
        }
        if forall|i: int| 0 <= i < f.len() ==> #[trigger] tree_placed(f[i], prefix) {
            assert forall|i: int| 0 <= i < f.drop_last().len() implies #[trigger] tree_placed(f.drop_last()[i], prefix) by {
                assert(f[i] == f.drop_last()[i]);
                assert(tree_placed(f[i], prefix));
            }
            assert(tree_placed(f[f.len() - 1], prefix));
        }
    }
}

proof fn lemma_trie_insert_placed(f: Seq<NodeV>, segs: Seq<Seq<char>>, key: Seq<char>, prefix: Option<Seq<char>>)
    requires
        forest_placed(f, prefix),
        segs.len() > 0 ==> joined(None, segments(key)) == joined(prefix, segs),
    ensures
        forest_placed(trie_insert(f, segs, key), prefix),
    decreases segs.len(),
{
    if segs.len() > 0 {
        let found = find_name(f, segs[0], 0);
        let f1 = if found is Some { f } else { f.push(empty_node(segs[0])) };
        let i = match found { Some(i) => i, None => f.len() as int };
        lemma_find_name(f, segs[0], 0);
        let n = f1[i];
        let inner = Some(full_name(prefix, segs[0]));
        let n2 = if segs.len() == 1 {
            NodeV { name: n.name, key: Some(key), children: n.children }
        } else {
            NodeV { name: n.name, key: n.key, children: trie_insert(n.children, segs.drop_first(), key) }
        };
        let r = f1.update(i, n2);
        assert(r == trie_insert(f, segs, key));
        lemma_forest_placed(f, prefix);
        assert(n.name == segs[0]);
        assert(tree_placed(n, prefix)) by {
            if found is None {
                assert(forest_placed(n.children, inner));
            }
        }
        if segs.len() == 1 {
            assert(joined(prefix, segs) == joined(inner, segs.drop_first()));
        } else {
            lemma_trie_insert_placed(n.children, segs.drop_first(), key, inner);
        }
        assert(tree_placed(n2, prefix));
        assert forall|k: int| 0 <= k < r.len() implies #[trigger] tree_placed(r[k], prefix) by {
            if k != i {
                assert(r[k] == f[k]);
            }
        }
        lemma_forest_placed(r, prefix);
    }
}

proof fn lemma_insert_all_placed(paths: Seq<Seq<char>>)
    ensures
        forest_placed(insert_all(paths), None),
    decreases paths.len(),
{
    if paths.len() > 0 {
        lemma_insert_all_placed(paths.drop_last());
        lemma_trie_insert_placed(insert_all(paths.drop_last()), segments(paths.last()), paths.last(), None);
    }
}

proof fn lemma_collapse_placed(n: NodeV, prefix: Option<Seq<char>>)
    requires
        tree_placed(n, prefix),
    ensures
        tree_placed(collapse(n), prefix),
    decreases n, 1nat,
{
    let inner = Some(full_name(prefix, n.name));
    if n.key is None && n.children.len() == 1 {
        lemma_forest_placed(n.children, inner);
        let c = n.children[0];
        lemma_collapse_placed(c, inner);
        let c2 = collapse(c);
        let merged = n.name + seq!['/'] + c2.name;
        assert(full_name(prefix, merged) =~= full_name(inner, c2.name));
    } else {
        lemma_collapse_all_placed(n.children, inner);
    }
}

proof fn lemma_collapse_all_placed(s: Seq<NodeV>, prefix: Option<Seq<char>>)
    requires
        forest_placed(s, prefix),
    ensures
        forest_placed(collapse_all(s), prefix),
    decreases s, 0nat,
{
    if s.len() > 0 {
        lemma_collapse_all_placed(s.drop_last(), prefix);
        lemma_collapse_placed(s.last(), prefix);
        assert(collapse_all(s).drop_last() =~= collapse_all(s.drop_last()));
    }
}

proof fn lemma_sort_forest_placed(f: Seq<NodeV>, prefix: Option<Seq<char>>)
    requires
        forest_placed(f, prefix),
    ensures
        forest_placed(sort_forest(f), prefix),
    decreases f,
{
    let le = |a: NodeV, b: NodeV| name_le(a, b);
    let r = sort_forest(f);
    lemma_sort_each(f);
    lemma_forest_placed(f, prefix);
    assert forall|k: int| 0 <= k < r.len() implies #[trigger] tree_placed(r[k], prefix) by {
        lemma_sort_by_contains(sort_each(f), le, k);
        let j = choose|j: int| 0 <= j < sort_each(f).len() && sort_each(f)[j] == r[k];
        let x = f[j];
        assert(tree_placed(x, prefix));
        lemma_sort_forest_placed(x.children, Some(full_name(prefix, x.name)));
        assert(r[k] == sort_node(x));
    }
    lemma_forest_placed(r, prefix);
}

/// Law: every project in the tree sits at its path: the names of the nodes
/// from a root down to it, joined by `/`, are the non-empty segments of its
/// path joined by `/`.
pub proof fn lemma_tree_places_projects_at_their_paths(paths: Seq<Seq<char>>)
    ensures
        forest_placed(tree_of(paths), None),
{
    lemma_insert_all_placed(paths);
    lemma_collapse_all_placed(insert_all(paths), None);
    lemma_sort_forest_placed(collapse_all(insert_all(paths)), None);
}

/// No two nodes of `f` have the same name.
pub open spec fn distinct_names(f: Seq<NodeV>) -> bool {
    forall|i: int, j: int| 0 <= i < j < f.len() ==> (#[trigger] f[i]).name != (#[trigger] f[j]).name
}

/// The children of the node have distinct names.
pub open spec fn children_distinct(n: NodeV) -> bool {
    distinct_names(n.children)
}

/// A node of the trie: a non-empty name without `/`, children with distinct
/// names.
pub open spec fn trie_node_ok(n: NodeV) -> bool {
    n.name.len() > 0 && !n.name.contains('/') && distinct_names(n.children)
}

/// A path of names as the trie has them: none empty, none with a `/`.
pub open spec fn plain_names(s: Seq<Seq<char>>) -> bool {
    forall|k: int| 0 <= k < s.len() ==> (#[trigger] s[k]).len() > 0 && !s[k].contains('/')
}

pub open spec fn trie_ok(f: Seq<NodeV>) -> bool {
    distinct_names(f) && forest_all(f, |n: NodeV| trie_node_ok(n))
}

/// The part of a name before its first `/`.
pub open spec fn first_part(name: Seq<char>) -> Seq<char> {
    match find_char(name, '/', 0) {
        Some(j) => name.take(j),
        None => name,
    }
}

/// The segments of a path are not empty and hold no `/`.
pub proof fn lemma_segments(p: Seq<char>)
    ensures
        forall|k: int| 0 <= k < segments(p).len() ==> (#[trigger] segments(p)[k]).len() > 0 && !segments(p)[k].contains('/'),
    decreases p.len(),
{
    lemma_find_char(p, '/', 0);
    match find_char(p, '/', 0) {
        Some(j) => {
            lemma_segments(p.skip(j + 1));
            let head = p.take(j);
            assert(!head.contains('/')) by {
                if head.contains('/') {
                    let m = choose|m: int| 0 <= m < head.len() && head[m] == '/';
                    assert(p[m] == '/');
                }
            }
            let rest = segments(p.skip(j + 1));
            assert forall|k: int| 0 <= k < segments(p).len() implies (#[trigger] segments(p)[k]).len() > 0 && !segments(p)[k].contains('/') by {
                if head.len() > 0 {
                    if k > 0 {
                        assert(segments(p)[k] == rest[k - 1]);
                    }
                } else {
                    assert(segments(p)[k] == rest[k]);
                }
            }
        },
        None => {
            assert(!p.contains('/')) by {
                if p.contains('/') {
                    let m = choose|m: int| 0 <= m < p.len() && p[m] == '/';
                }
            }
        },
    }
}

proof fn lemma_trie_insert_ok(f: Seq<NodeV>, segs: Seq<Seq<char>>, key: Seq<char>)
    requires
        trie_ok(f),
        plain_names(segs),
    ensures
        trie_ok(trie_insert(f, segs, key)),
    decreases segs.len(),
{
    let p = |n: NodeV| trie_node_ok(n);
    if segs.len() > 0 {
        let found = find_name(f, segs[0], 0);
        let f1 = if found is Some { f } else { f.push(empty_node(segs[0])) };
        let i = match found { Some(i) => i, None => f.len() as int };
        lemma_find_name(f, segs[0], 0);
        let n = f1[i];
        let n2 = if segs.len() == 1 {
            NodeV { name: n.name, key: Some(key), children: n.children }
        } else {
            NodeV { name: n.name, key: n.key, children: trie_insert(n.children, segs.drop_first(), key) }
        };
        let r = f1.update(i, n2);
        assert(r == trie_insert(f, segs, key));
        lemma_forest_all(f, p);
        assert(tree_all(n, p)) by {
            if found is None {
                assert(forest_all(n.children, p));
            }
        }
        if segs.len() > 1 {
            assert forall|k: int| 0 <= k < segs.drop_first().len() implies (#[trigger] segs.drop_first()[k]).len() > 0 && !segs.drop_first()[k].contains('/') by {
                assert(segs.drop_first()[k] == segs[k + 1]);
            }
            lemma_trie_insert_ok(n.children, segs.drop_first(), key);
        }
        assert(tree_all(n2, p));
        assert forall|k: int| 0 <= k < r.len() implies #[trigger] tree_all(r[k], p) by {
            if k != i {
                assert(r[k] == f[k]);
            }
        }
        lemma_forest_all(r, p);
        assert forall|a: int, b: int| 0 <= a < b < r.len() implies (#[trigger] r[a]).name != (#[trigger] r[b]).name by {
            if a < f.len() && b < f.len() {
                assert(r[a].name == f[a].name && r[b].name == f[b].name);
            } else {
                assert(r[a].name == f[a].name);
            }
        }
    }
}

proof fn lemma_insert_all_ok(paths: Seq<Seq<char>>)
    ensures
        trie_ok(insert_all(paths)),
    decreases paths.len(),
{
    if paths.len() > 0 {
        lemma_insert_all_ok(paths.drop_last());
        lemma_segments(paths.last());
        lemma_trie_insert_ok(insert_all(paths.drop_last()), segments(paths.last()), paths.last());
    }
}

proof fn lemma_collapse_distinct(n: NodeV)
    requires
        tree_all(n, |m: NodeV| trie_node_ok(m)),
    ensures
        first_part(collapse(n).name) == n.name,
        tree_all(collapse(n), |m: NodeV| children_distinct(m)),
    decreases n, 1nat,
{
    let p = |m: NodeV| trie_node_ok(m);
    if n.key is None && n.children.len() == 1 {
        lemma_forest_all(n.children, p);
        lemma_collapse_distinct(n.children[0]);
        let c = collapse(n.children[0]);
        let merged = n.name + seq!['/'] + c.name;
        assert forall|k: int| 0 <= k < n.name.len() implies merged[k] != '/' by {
            assert(merged[k] == n.name[k]);
        }
        lemma_find_char_at(merged, '/', 0, n.name.len() as int);
        assert(merged.take(n.name.len() as int) =~= n.name);
    } else {
        lemma_find_char(n.name, '/', 0);
        lemma_collapse_all_distinct(n.children);
    }
}

proof fn lemma_collapse_all_distinct(s: Seq<NodeV>)
    requires
        forest_all(s, |m: NodeV| trie_node_ok(m)),
        distinct_names(s),
    ensures
        forest_all(collapse_all(s), |m: NodeV| children_distinct(m)),
        distinct_names(collapse_all(s)),
    decreases s, 0nat,
{
    let p = |m: NodeV| trie_node_ok(m);
    let d = |m: NodeV| children_distinct(m);
    let c = collapse_all(s);
    lemma_collapse_all(s);
    lemma_forest_all(s, p);
    assert forall|k: int| #![trigger c[k]] 0 <= k < c.len() implies tree_all(c[k], d) && first_part(c[k].name) == s[k].name by {
        lemma_collapse_distinct(s[k]);
    }
    lemma_forest_all(c, d);
    assert forall|a: int, b: int| 0 <= a < b < c.len() implies (#[trigger] c[a]).name != (#[trigger] c[b]).name by {
        assert(first_part(c[a].name) == s[a].name);
        assert(first_part(c[b].name) == s[b].name);
    }
}

proof fn lemma_sort_forest_distinct(f: Seq<NodeV>)
    requires
        distinct_names(f),
        forest_all(f, |m: NodeV| children_distinct(m)),
    ensures
        distinct_names(sort_forest(f)),
        forest_all(sort_forest(f), |m: NodeV| children_distinct(m)),
    decreases f,
{
    let le = |a: NodeV, b: NodeV| name_le(a, b);
    let d = |m: NodeV| children_distinct(m);
    let e = sort_each(f);
    let r = sort_forest(f);
    lemma_sort_each(f);
    lemma_forest_all(f, d);
    assert forall|i: int, j: int| 0 <= i < j < e.len() implies (|n: NodeV| n.name)(#[trigger] e[i]) != (|n: NodeV| n.name)(#[trigger] e[j]) by {
        assert(e[i].name == f[i].name && e[j].name == f[j].name);
    }
    lemma_sort_by_distinct(e, le, |n: NodeV| n.name);
    assert forall|k: int| 0 <= k < r.len() implies #[trigger] tree_all(r[k], d) by {
        lemma_sort_by_contains(e, le, k);
        let j = choose|j: int| 0 <= j < e.len() && e[j] == r[k];
        let x = f[j];
        assert(tree_all(x, d));
        lemma_sort_forest_distinct(x.children);
        assert(r[k] == sort_node(x));
    }
    lemma_forest_all(r, d);
}

/// Law: no two roots of the tree, and no two children of one node, have
/// the same name.
pub proof fn lemma_tree_names_are_distinct(paths: Seq<Seq<char>>)
    ensures
        distinct_names(tree_of(paths)),
        forest_all(tree_of(paths), |m: NodeV| children_distinct(m)),
{
    lemma_insert_all_ok(paths);
    lemma_collapse_all_distinct(insert_all(paths));
    lemma_sort_forest_distinct(collapse_all(insert_all(paths)));
}

proof fn lemma_joined_some(p: Seq<char>, t: Seq<Seq<char>>)
    requires
        t.len() > 0,
    ensures
        joined(None, t) is Some,
        joined(Some(p), t) == Some(p + seq!['/'] + joined(None, t)->0),
    decreases t.len(),
{
    assert(joined(None, t) == joined(Some(t[0]), t.drop_first()));
    assert(joined(Some(p), t) == joined(Some(p + seq!['/'] + t[0]), t.drop_first()));
    if t.len() > 1 {
        lemma_joined_some(p + seq!['/'] + t[0], t.drop_first());
        lemma_joined_some(t[0], t.drop_first());
        let j = joined(None, t.drop_first())->0;
        assert(p + seq!['/'] + t[0] + seq!['/'] + j =~= p + seq!['/'] + (t[0] + seq!['/'] + j));
    } else {
        assert(t.drop_first().len() == 0);
    }
}

/// The first part of the full name of a path of plain names is its first
/// name; the rest, after the `/`, is the full name of the other names.
proof fn lemma_joined_first(t: Seq<Seq<char>>)
    requires
        t.len() > 0,
        plain_names(t),
    ensures
        joined(None, t) is Some,
        t.len() == 1 ==> !(joined(None, t)->0).contains('/') && joined(None, t)->0 == t[0],
        t.len() > 1 ==> find_char(joined(None, t)->0, '/', 0) == Some(t[0].len() as int) && (joined(
            None,
            t,
        )->0).skip(t[0].len() as int + 1) == joined(None, t.drop_first())->0 && (joined(None, t)->0).take(
            t[0].len() as int,
        ) == t[0],
{
    lemma_joined_some(t[0], t);
    if t.len() > 1 {
        lemma_joined_some(t[0], t.drop_first());
        let j = joined(None, t.drop_first())->0;
        let whole = t[0] + seq!['/'] + j;
        assert(joined(None, t) == joined(Some(t[0]), t.drop_first()));
        assert forall|k: int| 0 <= k < t[0].len() implies whole[k] != '/' by {
            assert(whole[k] == t[0][k]);
            assert(!t[0].contains('/'));
        }
        lemma_find_char_at(whole, '/', 0, t[0].len() as int);
        assert(whole.skip(t[0].len() as int + 1) =~= j);
        assert(whole.take(t[0].len() as int) =~= t[0]);
    } else {
        assert(joined(None, t) == joined(Some(t[0]), t.drop_first()));
        assert(t.drop_first().len() == 0);
    }
}

/// Distinct paths of plain names have distinct full names.
proof fn lemma_joined_injective(s: Seq<Seq<char>>, t: Seq<Seq<char>>)
    requires
        s.len() > 0,
        t.len() > 0,
        plain_names(s),
        plain_names(t),
        joined(None, s) == joined(None, t),
    ensures
        s == t,
    decreases s.len(),
{
    lemma_joined_first(s);
    lemma_joined_first(t);
    let js = joined(None, s)->0;
    if s.len() > 1 && t.len() > 1 {
        assert(s[0] == t[0]);
        assert(plain_names(s.drop_first())) by {
            assert forall|k: int| 0 <= k < s.drop_first().len() implies (#[trigger] s.drop_first()[k]).len() > 0 && !s.drop_first()[k].contains('/') by {
                assert(s.drop_first()[k] == s[k + 1]);
            }
        }
        assert(plain_names(t.drop_first())) by {
            assert forall|k: int| 0 <= k < t.drop_first().len() implies (#[trigger] t.drop_first()[k]).len() > 0 && !t.drop_first()[k].contains('/') by {
                assert(t.drop_first()[k] == t[k + 1]);
            }
        }
        lemma_joined_some(s[0], s.drop_first());
        lemma_joined_some(t[0], t.drop_first());
        assert(joined(None, s.drop_first()) == joined(None, t.drop_first()));
        lemma_joined_injective(s.drop_first(), t.drop_first());
        assert forall|k: int| 0 <= k < s.len() implies s[k] == t[k] by {
            if k > 0 {
                assert(s[k] == s.drop_first()[k - 1]);
                assert(t[k] == t.drop_first()[k - 1]);
            }
        }
        assert(s =~= t);
    } else if s.len() == 1 && t.len() == 1 {
        assert(s =~= t);
    } else if s.len() == 1 {
        lemma_find_char(js, '/', 0);
        let k = t[0].len() as int;
        assert(js[k] == '/');
        assert(js.contains('/'));
    } else {
        let jt = joined(None, t)->0;
        lemma_find_char(jt, '/', 0);
        let k = s[0].len() as int;
        assert(js[k] == '/');
        assert(jt.contains('/'));
    }
}

proof fn lemma_find_name_distinct(f: Seq<NodeV>, i: int)
    requires
        0 <= i < f.len(),
        distinct_names(f),
    ensures
        find_name(f, f[i].name, 0) == Some(i),
{
    lemma_find_name(f, f[i].name, 0);
    if let Some(j) = find_name(f, f[i].name, 0) {
        if j != i {
            if j < i {
                assert(f[j].name != f[i].name);
            } else {
                assert(f[i].name != f[j].name);
            }
        }
    }
}

/// A project key of a placed trie is found at a path of names whose full
/// name is the full name of the key's segments.
proof fn lemma_key_address(f: Seq<NodeV>, prefix: Option<Seq<char>>, q: Seq<char>) -> (addr: Seq<Seq<char>>)
    requires
        trie_ok(f),
        forest_placed(f, prefix),
        forest_has_key(f, q),
    ensures
        addr.len() > 0,
        plain_names(addr),
        key_at(f, addr) == Some(q),
        joined(prefix, addr) == joined(None, segments(q)),
    decreases f,
{
    let p = |n: NodeV| trie_node_ok(n);
    lemma_forest_has_key(f, q);
    lemma_forest_all(f, p);
    lemma_forest_placed(f, prefix);
    let i = choose|i: int| 0 <= i < f.len() && #[trigger] tree_has_key(f[i], q);
    let n = f[i];
    assert(tree_all(n, p));
    assert(tree_placed(n, prefix));
    lemma_find_name_distinct(f, i);
    let inner = Some(full_name(prefix, n.name));
    if n.key == Some(q) {
        let addr = seq![n.name];
        assert(addr.drop_first() =~= Seq::<Seq<char>>::empty());
        assert(joined(prefix, addr) == joined(inner, addr.drop_first()));
        addr
    } else {
        assert(forest_has_key(n.children, q));
        let rest = lemma_key_address(n.children, inner, q);
        let addr = seq![n.name] + rest;
        assert(addr.drop_first() =~= rest);
        assert(addr[0] == n.name);
        assert forall|k: int| 0 <= k < addr.len() implies (#[trigger] addr[k]).len() > 0 && !addr[k].contains('/') by {
            if k > 0 {
                assert(addr[k] == rest[k - 1]);
            }
        }
        assert(joined(prefix, addr) == joined(inner, addr.drop_first()));
        addr
    }
}

/// Law: the project keys of the tree are exactly the paths with a
/// non-empty segment that no later path with the same segments follows.
pub proof fn lemma_tree_keys_are_exactly_the_last_paths(paths: Seq<Seq<char>>, q: Seq<char>)
    ensures
        forest_has_key(tree_of(paths), q) <==> segments(q).len() > 0 && last_with_segments(
            paths,
            segments(q),
        ) == Some(q),
{
    let t = insert_all(paths);
    lemma_collapse_all_keys(t, q);
    lemma_sort_forest_keys(collapse_all(t), q);
    if forest_has_key(tree_of(paths), q) {
        lemma_insert_all_keys(paths, q);
        lemma_insert_all_ok(paths);
        lemma_insert_all_placed(paths);
        let addr = lemma_key_address(t, None, q);
        lemma_segments(q);
        lemma_joined_injective(addr, segments(q));
        lemma_insert_all_key_at(paths, segments(q));
    }
    if segments(q).len() > 0 && last_with_segments(paths, segments(q)) == Some(q) {
        lemma_last_with_segments(paths, segments(q));
        let k = choose|k: int| 0 <= k < paths.len() && paths[k] == q;
        lemma_tree_holds_every_project(paths, k);
    }
}

/// The sum of `w` over the projects of the tree `n`, itself included.
pub open spec fn tree_weight(n: NodeV, w: spec_fn(Seq<char>) -> nat) -> nat
    decreases n, 1nat,
{
    (match n.key {
        Some(k) => w(k),
        None => 0nat,
    }) + forest_weight(n.children, w)
}

/// The sum of `w` over the projects of the forest `f`, at any depth.
pub open spec fn forest_weight(f: Seq<NodeV>, w: spec_fn(Seq<char>) -> nat) -> nat
    decreases f, 0nat,
{
    if f.len() == 0 {
        0
    } else {
        forest_weight(f.drop_last(), w) + tree_weight(f.last(), w)
    }
}

proof fn lemma_forest_weight_concat(a: Seq<NodeV>, b: Seq<NodeV>, w: spec_fn(Seq<char>) -> nat)
    ensures
        forest_weight(a + b, w) == forest_weight(a, w) + forest_weight(b, w),
    decreases b.len(),
{
    if b.len() == 0 {
        assert(a + b =~= a);
    } else {
        lemma_forest_weight_concat(a, b.drop_last(), w);
        assert((a + b).drop_last() =~= a + b.drop_last());
        assert((a + b).last() == b.last());
    }
}

proof fn lemma_forest_weight_update(f: Seq<NodeV>, i: int, x: NodeV, w: spec_fn(Seq<char>) -> nat)
    requires
        0 <= i < f.len(),
    ensures
        forest_weight(f.update(i, x), w) + tree_weight(f[i], w) == forest_weight(f, w)
            + tree_weight(x, w),
{
    let pre = f.take(i);
    let post = f.skip(i + 1);
    assert(f =~= pre + seq![f[i]] + post);
    assert(f.update(i, x) =~= pre + seq![x] + post);
    lemma_forest_weight_concat(pre + seq![f[i]], post, w);
    lemma_forest_weight_concat(pre, seq![f[i]], w);
    lemma_forest_weight_concat(pre + seq![x], post, w);
    lemma_forest_weight_concat(pre, seq![x], w);
    assert(seq![f[i]].drop_last() =~= Seq::<NodeV>::empty());
    assert(seq![x].drop_last() =~= Seq::<NodeV>::empty());
}

/// Adding a path at `segs` adds the weight of `key`, and takes away that of
/// the project that was there, if any.
proof fn lemma_trie_insert_weight(f: Seq<NodeV>, segs: Seq<Seq<char>>, key: Seq<char>, w: spec_fn(Seq<char>) -> nat)
    requires
        segs.len() > 0,
    ensures
        forest_weight(trie_insert(f, segs, key), w) + (match key_at(f, segs) {
            Some(k) => w(k),
            None => 0nat,
        }) == forest_weight(f, w) + w(key),
    decreases segs.len(),
{
    let found = find_name(f, segs[0], 0);
    lemma_find_name(f, segs[0], 0);
    let f1 = if found is Some {
        f
    } else {
        f.push(empty_node(segs[0]))
    };
    let i = match found {
        Some(i) => i,
        None => f.len() as int,
    };
    if found is None {
        assert(f1.drop_last() =~= f);
        assert(f1.last() == empty_node(segs[0]));
        assert(forest_weight(Seq::<NodeV>::empty(), w) == 0);
        assert(tree_weight(empty_node(segs[0]), w) == 0);
        assert(forest_weight(f1, w) == forest_weight(f, w));
    }
    let n = f1[i];
    let n2 = if segs.len() == 1 {
        NodeV { name: n.name, key: Some(key), children: n.children }
    } else {
        NodeV { name: n.name, key: n.key, children: trie_insert(n.children, segs.drop_first(), key) }
    };
    assert(trie_insert(f, segs, key) == f1.update(i, n2));
    lemma_forest_weight_update(f1, i, n2, w);
    if segs.len() > 1 {
        lemma_trie_insert_weight(n.children, segs.drop_first(), key, w);
        if found is None {
            lemma_find_name(seq![], segs[1], 0);
            assert(key_at(n.children, segs.drop_first()) is None);
        }
    }
}

/// The sum of `w` over `paths`.
pub open spec fn weight_sum(paths: Seq<Seq<char>>, w: spec_fn(Seq<char>) -> nat) -> nat
    decreases paths.len(),
{
    if paths.len() == 0 {
        0
    } else {
        weight_sum(paths.drop_last(), w) + w(paths.last())
    }
}

/// Paths whose lists of segments are non-empty and pairwise distinct.
pub open spec fn distinct_segments(paths: Seq<Seq<char>>) -> bool {
    &&& forall|i: int| 0 <= i < paths.len() ==> #[trigger] segments(paths[i]).len() > 0
    &&& forall|i: int, j: int|
        0 <= i < j < paths.len() ==> #[trigger] segments(paths[i]) != #[trigger] segments(paths[j])
}

/// With such paths the trie has one node for each path, so it weighs what
/// the paths weigh.
proof fn lemma_insert_all_weight(paths: Seq<Seq<char>>, w: spec_fn(Seq<char>) -> nat)
    requires
        distinct_segments(paths),
    ensures
        forest_weight(insert_all(paths), w) == weight_sum(paths, w),
    decreases paths.len(),
{
    if paths.len() == 0 {
        assert(forest_weight(seq![], w) == 0);
    } else {
        let prev = paths.drop_last();
        let last = paths.last();
        assert forall|i: int| 0 <= i < prev.len() implies #[trigger] segments(prev[i]).len() > 0 by {
            assert(prev[i] == paths[i]);
        }
        assert forall|i: int, j: int| 0 <= i < j < prev.len() implies #[trigger] segments(prev[i])
            != #[trigger] segments(prev[j]) by {
            assert(prev[i] == paths[i] && prev[j] == paths[j]);
        }
        lemma_insert_all_weight(prev, w);
        let s = segments(last);
        assert(s.len() > 0 && segments(paths[paths.len() - 1]).len() > 0);
        lemma_insert_all_key_at(prev, s);
        lemma_last_with_segments_none(prev, s, paths);
        lemma_trie_insert_weight(insert_all(prev), s, last, w);
    }
}

/// Over distinct paths, counting one for `q` and none for anything else
/// sums to whether `q` is among them.
pub proof fn lemma_weight_sum_indicator(paths: Seq<Seq<char>>, q: Seq<char>, w: spec_fn(Seq<char>) -> nat)
    requires
        distinct_segments(paths),
        forall|k: Seq<char>| #[trigger] w(k) == (if k == q {
            1nat
        } else {
            0nat
        }),
    ensures
        weight_sum(paths, w) == (if paths.contains(q) {
            1nat
        } else {
            0nat
        }),
    decreases paths.len(),
{
    if paths.len() > 0 {
        let prev = paths.drop_last();
        let last = paths.last();
        assert forall|i: int| 0 <= i < prev.len() implies #[trigger] segments(prev[i]).len() > 0 by {
            assert(prev[i] == paths[i]);
        }
        assert forall|i: int, j: int| 0 <= i < j < prev.len() implies #[trigger] segments(prev[i])
            != #[trigger] segments(prev[j]) by {
            assert(prev[i] == paths[i] && prev[j] == paths[j]);
        }
        lemma_weight_sum_indicator(prev, q, w);
        assert(w(last) == (if last == q { 1nat } else { 0nat }));
        if prev.contains(q) {
            let k = choose|k: int| 0 <= k < prev.len() && prev[k] == q;
            assert(paths[k] == q);
            if last == q {
                assert(segments(paths[k]) != segments(paths[paths.len() - 1]));
            }
        }
        if paths.contains(q) && !prev.contains(q) {
            let k = choose|k: int| 0 <= k < paths.len() && paths[k] == q;
            if k < paths.len() - 1 {
                assert(prev[k] == q);
            }
        }
        if last == q {
            assert(paths[paths.len() - 1] == q);
        }
    } else {
        assert(!paths.contains(q));
    }
}

proof fn lemma_last_with_segments_none(prev: Seq<Seq<char>>, s: Seq<Seq<char>>, paths: Seq<Seq<char>>)
    requires
        prev == paths.drop_last(),
        paths.len() > 0,
        s == segments(paths.last()),
        forall|i: int, j: int|
            0 <= i < j < paths.len() ==> #[trigger] segments(paths[i]) != #[trigger] segments(paths[j]),
    ensures
        last_with_segments(prev, s) is None,
    decreases prev.len(),
{
    if prev.len() > 0 && s.len() > 0 {
        assert(segments(paths[prev.len() - 1]) != segments(paths[paths.len() - 1]));
        assert(prev.last() == paths[prev.len() - 1]);
        let p2 = paths.drop_last().drop_last().push(paths.last());
        assert(p2.drop_last() =~= prev.drop_last());
        assert forall|i: int, j: int| 0 <= i < j < p2.len() implies #[trigger] segments(p2[i])
            != #[trigger] segments(p2[j]) by {
            if j < p2.len() - 1 {
                assert(p2[i] == paths[i] && p2[j] == paths[j]);
            } else {
                assert(p2[i] == paths[i] && p2[j] == paths[paths.len() - 1]);
            }
        }
        lemma_last_with_segments_none(prev.drop_last(), s, p2);
    }
}

proof fn lemma_collapse_weight(n: NodeV, w: spec_fn(Seq<char>) -> nat)
    ensures
        tree_weight(collapse(n), w) == tree_weight(n, w),
    decreases n, 1nat,
{
    if n.key is None && n.children.len() == 1 {
        lemma_collapse_weight(n.children[0], w);
        assert(n.children.drop_last() =~= Seq::<NodeV>::empty());
        assert(forest_weight(Seq::<NodeV>::empty(), w) == 0);
    } else {
        lemma_collapse_all_weight(n.children, w);
    }
}

proof fn lemma_collapse_all_weight(s: Seq<NodeV>, w: spec_fn(Seq<char>) -> nat)
    ensures
        forest_weight(collapse_all(s), w) == forest_weight(s, w),
    decreases s, 0nat,
{
    if s.len() > 0 {
        lemma_collapse_all_weight(s.drop_last(), w);
        lemma_collapse_weight(s.last(), w);
        assert(collapse_all(s).drop_last() =~= collapse_all(s.drop_last()));
    }
}

proof fn lemma_sort_by_weight(s: Seq<NodeV>, le: spec_fn(NodeV, NodeV) -> bool, w: spec_fn(Seq<char>) -> nat)
    ensures
        forest_weight(sort_by(s, le), w) == forest_weight(s, w),
    decreases s.len(),
{
    if s.len() > 0 {
        lemma_sort_by_weight(s.drop_last(), le, w);
        let r = sort_by(s.drop_last(), le);
        let x = s.last();
        lemma_ins_pos(r, x, le);
        let p = ins_pos(r, x, le) as int;
        assert(ins(r, x, le) =~= r.take(p) + seq![x] + r.skip(p));
        assert(r =~= r.take(p) + r.skip(p));
        lemma_forest_weight_concat(r.take(p) + seq![x], r.skip(p), w);
        lemma_forest_weight_concat(r.take(p), seq![x], w);
        lemma_forest_weight_concat(r.take(p), r.skip(p), w);
        assert(seq![x].drop_last() =~= Seq::<NodeV>::empty());
        assert(forest_weight(Seq::<NodeV>::empty(), w) == 0);
        assert(forest_weight(seq![x], w) == tree_weight(x, w));
        assert(sort_by(s, le) == ins(r, x, le));
        assert(forest_weight(s, w) == forest_weight(s.drop_last(), w) + tree_weight(x, w));
    }
}

proof fn lemma_sort_node_weight(n: NodeV, w: spec_fn(Seq<char>) -> nat)
    ensures
        tree_weight(sort_node(n), w) == tree_weight(n, w),
    decreases n, 3nat,
{
    lemma_sort_forest_weight(n.children, w);
}

proof fn lemma_sort_forest_weight(f: Seq<NodeV>, w: spec_fn(Seq<char>) -> nat)
    ensures
        forest_weight(sort_forest(f), w) == forest_weight(f, w),
    decreases f, 2nat,
{
    lemma_sort_each_weight(f, w);
    lemma_sort_by_weight(sort_each(f), |a: NodeV, b: NodeV| name_le(a, b), w);
}

proof fn lemma_sort_each_weight(f: Seq<NodeV>, w: spec_fn(Seq<char>) -> nat)
    ensures
        forest_weight(sort_each(f), w) == forest_weight(f, w),
    decreases f, 1nat,
{
    if f.len() > 0 {
        lemma_sort_each_weight(f.drop_last(), w);
        lemma_sort_node_weight(f.last(), w);
        assert(sort_each(f).drop_last() =~= sort_each(f.drop_last()));
    }
}

/// Law: where the paths split into non-empty, pairwise distinct lists of
/// segments, every path is the project of exactly one node of the tree and
/// nothing else is a project, so any weight of the tree's projects sums to
/// the weight of the paths.
pub proof fn lemma_tree_has_each_project_once(paths: Seq<Seq<char>>, w: spec_fn(Seq<char>) -> nat)
    requires
        distinct_segments(paths),
    ensures
        forest_weight(tree_of(paths), w) == weight_sum(paths, w),
{
    lemma_insert_all_weight(paths, w);
    lemma_collapse_all_weight(insert_all(paths), w);
    lemma_sort_forest_weight(collapse_all(insert_all(paths)), w);
}

/// The order of siblings, as a spec closure.
pub open spec fn sibling_order() -> spec_fn(NodeV, NodeV) -> bool {
    |a: NodeV, b: NodeV| name_le(a, b)
}

/// Two ordered sequences of nodes with distinct names and the same elements
/// are the same.
proof fn lemma_sorted_unique(a: Seq<NodeV>, b: Seq<NodeV>)
    requires
        is_sorted(a, sibling_order()),
        is_sorted(b, sibling_order()),
        distinct_names(a),
        distinct_names(b),
        a.to_multiset() == b.to_multiset(),
    ensures
        a == b,
    decreases a.len(),
{
    broadcast use vstd::seq_lib::to_multiset_contains, vstd::seq_lib::to_multiset_remove, vstd::seq_lib::to_multiset_len;

    assert(a.to_multiset().len() == a.len());
    assert(b.to_multiset().len() == b.len());
    if a.len() == 0 {
        assert(b.len() == 0);
        assert(a =~= b);
    } else {
        assert(b.len() == a.len());
        assert(a.contains(a[0]));
        assert(a.to_multiset().count(a[0]) > 0);
        assert(b.to_multiset().count(a[0]) > 0);
        assert(b.contains(a[0]));
        let j = choose|j: int| 0 <= j < b.len() && b[j] == a[0];
        assert(b.contains(b[0]));
        assert(b.to_multiset().count(b[0]) > 0);
        assert(a.to_multiset().count(b[0]) > 0);
        assert(a.contains(b[0]));
        let i = choose|i: int| 0 <= i < a.len() && a[i] == b[0];
        if i > 0 && j > 0 {
            assert((sibling_order())(a[0], a[i]));
            assert((sibling_order())(b[0], b[j]));
            lemma_str_le_antisym(a[0].name, b[0].name);
            assert(a[0].name == a[i].name);
        }
        assert(a[0] == b[0]);
        let a1 = a.drop_first();
        let b1 = b.drop_first();
        assert(a.remove(0) =~= a1);
        assert(b.remove(0) =~= b1);
        assert(a1.to_multiset() == b1.to_multiset());
        assert forall|x: int, y: int| 0 <= x < y < a1.len() implies #[trigger] (sibling_order())(a1[x], a1[y]) by {
            assert((sibling_order())(a[x + 1], a[y + 1]));
        }
        assert forall|x: int, y: int| 0 <= x < y < b1.len() implies #[trigger] (sibling_order())(b1[x], b1[y]) by {
            assert((sibling_order())(b[x + 1], b[y + 1]));
        }
        assert forall|x: int, y: int| 0 <= x < y < a1.len() implies (#[trigger] a1[x]).name != (#[trigger] a1[y]).name by {
            assert(a[x + 1].name != a[y + 1].name);
        }
        assert forall|x: int, y: int| 0 <= x < y < b1.len() implies (#[trigger] b1[x]).name != (#[trigger] b1[y]).name by {
            assert(b[x + 1].name != b[y + 1].name);
        }
        lemma_sorted_unique(a1, b1);
        assert(a =~= seq![a[0]].add(a1));
        assert(b =~= seq![b[0]].add(b1));
    }
}

/// Ordering two sequences of nodes with distinct names and the same
/// elements gives the same result.
proof fn lemma_sort_unique(x: Seq<NodeV>, y: Seq<NodeV>)
    requires
        distinct_names(x),
        distinct_names(y),
        x.to_multiset() == y.to_multiset(),
    ensures
        sort_by(x, sibling_order()) == sort_by(y, sibling_order()),
{
    let le = sibling_order();
    lemma_name_le_total_preorder();
    assert(le == |a: NodeV, b: NodeV| name_le(a, b));
    lemma_sort_by_permutation(x, le);
    lemma_sort_by_permutation(y, le);
    lemma_sort_by_sorted(x, le);
    lemma_sort_by_sorted(y, le);
    lemma_sort_by_distinct(x, le, |n: NodeV| n.name);
    lemma_sort_by_distinct(y, le, |n: NodeV| n.name);
    let rx = sort_by(x, le);
    let ry = sort_by(y, le);
    assert forall|i: int, j: int| 0 <= i < j < rx.len() implies (#[trigger] rx[i]).name != (#[trigger] rx[j]).name by {
        assert((|n: NodeV| n.name)(rx[i]) != (|n: NodeV| n.name)(rx[j]));
    }
    assert forall|i: int, j: int| 0 <= i < j < ry.len() implies (#[trigger] ry[i]).name != (#[trigger] ry[j]).name by {
        assert((|n: NodeV| n.name)(ry[i]) != (|n: NodeV| n.name)(ry[j]));
    }
    lemma_sorted_unique(rx, ry);
}

proof fn lemma_map_multiset<A, B>(x: Seq<A>, y: Seq<A>, h: spec_fn(A) -> B)
    requires
        x.to_multiset() == y.to_multiset(),
    ensures
        x.map_values(h).to_multiset() == y.map_values(h).to_multiset(),
    decreases x.len(),
{
    broadcast use vstd::seq_lib::to_multiset_contains, vstd::seq_lib::to_multiset_remove,
        vstd::seq_lib::to_multiset_insert, vstd::seq_lib::to_multiset_len, vstd::seq_lib::to_multiset_build;

    assert(x.to_multiset().len() == x.len());
    assert(y.to_multiset().len() == y.len());
    if x.len() == 0 {
        assert(y.len() == 0);
        assert(x.map_values(h) =~= y.map_values(h));
    } else {
        let e = x.last();
        let x1 = x.drop_last();
        assert(x.contains(e));
        assert(x.to_multiset().count(e) > 0);
        assert(y.to_multiset().count(e) > 0);
        assert(y.contains(e));
        let k = choose|k: int| 0 <= k < y.len() && y[k] == e;
        let y1 = y.remove(k);
        assert(y1.len() == y.len() - 1);
        assert(x1.push(e) =~= x);
        assert(x1.to_multiset() == y1.to_multiset());
        lemma_map_multiset(x1, y1, h);
        assert(x.map_values(h) =~= x1.map_values(h).push(h(e)));
        assert(y.map_values(h) =~= y1.map_values(h).insert(k, h(e)));
    }
}

/// Forests with distinct names whose ordered nodes are the same elements
/// are ordered into the same forest.
proof fn lemma_sort_forest_eq(f: Seq<NodeV>, g: Seq<NodeV>)
    requires
        distinct_names(f),
        distinct_names(g),
        sort_each(f).to_multiset() == sort_each(g).to_multiset(),
    ensures
        sort_forest(f) == sort_forest(g),
{
    lemma_sort_each(f);
    lemma_sort_each(g);
    let ef = sort_each(f);
    let eg = sort_each(g);
    assert forall|i: int, j: int| 0 <= i < j < ef.len() implies (#[trigger] ef[i]).name != (#[trigger] ef[j]).name by {
        assert(ef[i].name == f[i].name && ef[j].name == f[j].name);
    }
    assert forall|i: int, j: int| 0 <= i < j < eg.len() implies (#[trigger] eg[i]).name != (#[trigger] eg[j]).name by {
        assert(eg[i].name == g[i].name && eg[j].name == g[j].name);
    }
    lemma_sort_unique(ef, eg);
    assert(sibling_order() == |a: NodeV, b: NodeV| name_le(a, b));
}

/// Ordering before collapsing changes nothing once the result is ordered.
proof fn lemma_collapse_sort_node(n: NodeV)
    requires
        tree_all(n, |m: NodeV| trie_node_ok(m)),
    ensures
        sort_node(collapse(sort_node(n))) == sort_node(collapse(n)),
    decreases n, 1nat,
{
    let p = |m: NodeV| trie_node_ok(m);
    lemma_forest_all(n.children, p);
    lemma_sort_forest_len(n.children);
    if n.key is None && n.children.len() == 1 {
        let c0 = n.children[0];
        lemma_sort_each(n.children);
        assert(sort_each(n.children) =~= seq![sort_node(c0)]);
        let one = seq![sort_node(c0)];
        assert(one.drop_last() =~= Seq::<NodeV>::empty());
        assert(sort_by(one, sibling_order()) == ins(Seq::<NodeV>::empty(), sort_node(c0), sibling_order()));
        assert(ins(Seq::<NodeV>::empty(), sort_node(c0), sibling_order()) =~= one);
        assert(sibling_order() == |a: NodeV, b: NodeV| name_le(a, b));
        assert(sort_forest(n.children) == one);
        assert(tree_all(c0, p));
        lemma_collapse_sort_node(c0);
    } else {
        lemma_collapse_sort_forest(n.children);
    }
}

proof fn lemma_collapse_sort_forest(f: Seq<NodeV>)
    requires
        forest_all(f, |m: NodeV| trie_node_ok(m)),
        distinct_names(f),
    ensures
        sort_forest(collapse_all(sort_forest(f))) == sort_forest(collapse_all(f)),
    decreases f, 0nat,
{
    let p = |m: NodeV| trie_node_ok(m);
    let le = sibling_order();
    assert(le == |a: NodeV, b: NodeV| name_le(a, b));
    let h = |m: NodeV| sort_node(collapse(m));
    lemma_forest_all(f, p);
    lemma_sort_each(f);
    let e = sort_each(f);
    let r = sort_forest(f);
    lemma_sort_by_permutation(e, le);
    lemma_collapse_all(r);
    lemma_collapse_all(f);
    lemma_sort_each(collapse_all(r));
    lemma_sort_each(collapse_all(f));
    assert forall|i: int| 0 <= i < f.len() implies sort_node(collapse(sort_node(#[trigger] f[i]))) == sort_node(
        collapse(f[i])) by {
        lemma_collapse_sort_node(f[i]);
    }
    // the ordered, collapsed nodes of both sides are the same elements
    lemma_map_multiset(r, e, h);
    assert(sort_each(collapse_all(r)) =~= r.map_values(h));
    assert(e.map_values(h) =~= f.map_values(h));
    assert(sort_each(collapse_all(f)) =~= f.map_values(h));
    // names stay distinct on both sides
    lemma_collapse_all_distinct(f);
    let name_c = |m: NodeV| collapse(m).name;
    assert forall|i: int, j: int| 0 <= i < j < e.len() implies name_c(#[trigger] e[i]) != name_c(#[trigger] e[j]) by {
        assert(e[i] == sort_node(f[i]) && e[j] == sort_node(f[j]));
        assert(sort_node(collapse(sort_node(f[i]))) == sort_node(collapse(f[i])));
        assert(sort_node(collapse(sort_node(f[j]))) == sort_node(collapse(f[j])));
        assert(collapse_all(f)[i] == collapse(f[i]) && collapse_all(f)[j] == collapse(f[j]));
        assert(collapse_all(f)[i].name != collapse_all(f)[j].name);
    }
    lemma_sort_by_distinct(e, le, name_c);
    assert forall|i: int, j: int| 0 <= i < j < collapse_all(r).len() implies (#[trigger] collapse_all(r)[i]).name
        != (#[trigger] collapse_all(r)[j]).name by {
        assert(name_c(r[i]) != name_c(r[j]));
    }
    lemma_sort_forest_eq(collapse_all(r), collapse_all(f));
}

/// The node named `x` of `f`, or a new empty one where there is none.
pub open spec fn node_of(f: Seq<NodeV>, x: Seq<char>) -> NodeV {
    match find_name(f, x, 0) {
        Some(i) => f[i],
        None => empty_node(x),
    }
}

/// What adding the path `segs` does to the node where the path starts.
pub open spec fn node_inserted(n: NodeV, segs: Seq<Seq<char>>, key: Seq<char>) -> NodeV {
    if segs.len() == 1 {
        NodeV { name: n.name, key: Some(key), children: n.children }
    } else {
        NodeV { name: n.name, key: n.key, children: trie_insert(n.children, segs.drop_first(), key) }
    }
}

/// The ordered nodes of `f` but for the one named `x`, as a multiset.
pub open spec fn others(f: Seq<NodeV>, x: Seq<char>) -> vstd::multiset::Multiset<NodeV> {
    match find_name(f, x, 0) {
        Some(i) => sort_each(f).to_multiset().remove(sort_node(f[i])),
        None => sort_each(f).to_multiset(),
    }
}

/// Adding a path replaces, among the ordered nodes, the node where the path
/// starts by that node with the path added.
proof fn lemma_insert_multiset(f: Seq<NodeV>, segs: Seq<Seq<char>>, key: Seq<char>)
    requires
        segs.len() > 0,
    ensures
        sort_each(trie_insert(f, segs, key)).to_multiset() == others(f, segs[0]).insert(
            sort_node(node_inserted(node_of(f, segs[0]), segs, key)),
        ),
{
    broadcast use vstd::seq_lib::to_multiset_update, vstd::seq_lib::to_multiset_build,
        vstd::seq_lib::to_multiset_contains, vstd::multiset::group_multiset_axioms;

    let x = segs[0];
    let found = find_name(f, x, 0);
    lemma_find_name(f, x, 0);
    let f1 = if found is Some {
        f
    } else {
        f.push(empty_node(x))
    };
    let i = match found {
        Some(i) => i,
        None => f.len() as int,
    };
    let n2 = node_inserted(node_of(f, x), segs, key);
    assert(f1[i] == node_of(f, x));
    assert(trie_insert(f, segs, key) == f1.update(i, n2));
    lemma_sort_each(f1);
    lemma_sort_each(f1.update(i, n2));
    lemma_sort_each(f);
    let e1 = sort_each(f1);
    assert(sort_each(f1.update(i, n2)) =~= e1.update(i, sort_node(n2)));
    assert(e1[i] == sort_node(f1[i]));
    if found is None {
        assert(e1 =~= sort_each(f).push(sort_node(empty_node(x))));
        assert(e1.update(i, sort_node(n2)).to_multiset() =~= sort_each(f).to_multiset().insert(sort_node(n2)));
    } else {
        assert(sort_each(f).to_multiset().count(sort_node(f[i])) > 0) by {
            assert(sort_each(f)[i] == sort_node(f[i]));
            assert(sort_each(f).contains(sort_node(f[i])));
        }
        assert(e1.update(i, sort_node(n2)).to_multiset() =~= sort_each(f).to_multiset().remove(sort_node(f[i])).insert(
            sort_node(n2),
        ));
    }
}

/// In a forest with distinct names whose ordered form is that of another,
/// the node named `x` orders the same in both, and so do the others.
proof fn lemma_same_order_node_of(f: Seq<NodeV>, g: Seq<NodeV>, x: Seq<char>)
    requires
        distinct_names(f),
        distinct_names(g),
        sort_each(f).to_multiset() == sort_each(g).to_multiset(),
    ensures
        sort_node(node_of(f, x)) == sort_node(node_of(g, x)),
        others(f, x) == others(g, x),
        (find_name(f, x, 0) is Some) == (find_name(g, x, 0) is Some),
{
    broadcast use vstd::seq_lib::to_multiset_contains;

    lemma_find_name(f, x, 0);
    lemma_find_name(g, x, 0);
    lemma_sort_each(f);
    lemma_sort_each(g);
    let ef = sort_each(f);
    let eg = sort_each(g);
    if let Some(i) = find_name(f, x, 0) {
        assert(ef[i] == sort_node(f[i]));
        assert(ef.contains(ef[i]));
        assert(ef.to_multiset().count(ef[i]) > 0);
        assert(eg.to_multiset().count(ef[i]) > 0);
        let j = choose|j: int| 0 <= j < eg.len() && eg[j] == ef[i];
        assert(eg[j] == sort_node(g[j]));
        assert(g[j].name == x);
        let j2 = find_name(g, x, 0)->0;
        assert(g[j2].name == x);
        if j2 != j {
            assert(g[j2].name != g[j].name);
        }
    }
    if let Some(j) = find_name(g, x, 0) {
        assert(eg[j] == sort_node(g[j]));
        assert(eg.contains(eg[j]));
        assert(eg.to_multiset().count(eg[j]) > 0);
        assert(ef.to_multiset().count(eg[j]) > 0);
        let i = choose|i: int| 0 <= i < ef.len() && ef[i] == eg[j];
        assert(ef[i] == sort_node(f[i]));
        assert(f[i].name == x);
    }
}

proof fn lemma_trie_ok_parts(f: Seq<NodeV>, i: int)
    requires
        trie_ok(f),
        0 <= i < f.len(),
    ensures
        trie_ok(f[i].children),
        trie_node_ok(f[i]),
{
    let p = |n: NodeV| trie_node_ok(n);
    lemma_forest_all(f, p);
    assert(tree_all(f[i], p));
}

/// Adding a path to forests that order the same gives forests that order the
/// same.
proof fn lemma_insert_congruent(f: Seq<NodeV>, g: Seq<NodeV>, segs: Seq<Seq<char>>, key: Seq<char>)
    requires
        trie_ok(f),
        trie_ok(g),
        sort_forest(f) == sort_forest(g),
        plain_names(segs),
    ensures
        sort_forest(trie_insert(f, segs, key)) == sort_forest(trie_insert(g, segs, key)),
    decreases segs.len(),
{
    if segs.len() == 0 {
        return;
    }
    let le = sibling_order();
    assert(le == |a: NodeV, b: NodeV| name_le(a, b));
    lemma_sort_by_permutation(sort_each(f), le);
    lemma_sort_by_permutation(sort_each(g), le);
    let x = segs[0];
    lemma_same_order_node_of(f, g, x);
    let nf = node_of(f, x);
    let ng = node_of(g, x);
    lemma_find_name(f, x, 0);
    lemma_find_name(g, x, 0);
    if segs.len() > 1 {
        if let Some(i) = find_name(f, x, 0) {
            lemma_trie_ok_parts(f, i);
            let j = find_name(g, x, 0)->0;
            lemma_trie_ok_parts(g, j);
        } else {
            assert(nf.children =~= Seq::<NodeV>::empty());
            assert(ng.children =~= Seq::<NodeV>::empty());
            assert(trie_ok(Seq::<NodeV>::empty())) by {
                assert(forest_all(Seq::<NodeV>::empty(), |n: NodeV| trie_node_ok(n)));
            }
        }
        assert(plain_names(segs.drop_first())) by {
            assert forall|k: int| 0 <= k < segs.drop_first().len() implies (#[trigger] segs.drop_first()[k]).len() > 0
                && !segs.drop_first()[k].contains('/') by {
                assert(segs.drop_first()[k] == segs[k + 1]);
            }
        }
        assert(sort_forest(nf.children) == sort_forest(ng.children));
        lemma_insert_congruent(nf.children, ng.children, segs.drop_first(), key);
    }
    assert(sort_node(node_inserted(nf, segs, key)) == sort_node(node_inserted(ng, segs, key)));
    lemma_insert_multiset(f, segs, key);
    lemma_insert_multiset(g, segs, key);
    lemma_trie_insert_ok(f, segs, key);
    lemma_trie_insert_ok(g, segs, key);
    lemma_sort_forest_eq(trie_insert(f, segs, key), trie_insert(g, segs, key));
}

/// Adding a path leaves the nodes of other names where they were.
proof fn lemma_insert_other_name(f: Seq<NodeV>, segs: Seq<Seq<char>>, key: Seq<char>, y: Seq<char>)
    requires
        segs.len() > 0,
        y != segs[0],
    ensures
        find_name(trie_insert(f, segs, key), y, 0) == find_name(f, y, 0),
        find_name(f, y, 0) matches Some(j) ==> trie_insert(f, segs, key)[j] == f[j],
        node_of(trie_insert(f, segs, key), y) == node_of(f, y),
{
    let x = segs[0];
    let found = find_name(f, x, 0);
    lemma_find_name(f, x, 0);
    lemma_find_name(f, y, 0);
    let f1 = if found is Some {
        f
    } else {
        f.push(empty_node(x))
    };
    let i = match found {
        Some(i) => i,
        None => f.len() as int,
    };
    let n2 = node_inserted(node_of(f, x), segs, key);
    assert(trie_insert(f, segs, key) == f1.update(i, n2));
    lemma_find_name_same_names(f1.update(i, n2), f1, y, 0);
    if found is None {
        lemma_find_name_push(f, empty_node(x), y, 0);
    }
    if let Some(j) = find_name(f, y, 0) {
        assert(f1[j] == f[j]);
        assert(j != i);
    }
}

/// Adding two paths with different segments in either order gives forests
/// that order the same.
proof fn lemma_insert_commute(
    f: Seq<NodeV>,
    a: Seq<Seq<char>>,
    ka: Seq<char>,
    b: Seq<Seq<char>>,
    kb: Seq<char>,
)
    requires
        trie_ok(f),
        plain_names(a),
        plain_names(b),
        a.len() > 0 && b.len() > 0 ==> a != b,
    ensures
        sort_forest(trie_insert(trie_insert(f, a, ka), b, kb)) == sort_forest(
            trie_insert(trie_insert(f, b, kb), a, ka),
        ),
    decreases a.len(),
{
    broadcast use vstd::seq_lib::to_multiset_contains, vstd::multiset::group_multiset_axioms;

    if a.len() == 0 || b.len() == 0 {
        return;
    }
    let fa = trie_insert(f, a, ka);
    let fb = trie_insert(f, b, kb);
    let fab = trie_insert(fa, b, kb);
    let fba = trie_insert(fb, a, ka);
    let x = a[0];
    let y = b[0];
    lemma_find_name(f, x, 0);
    lemma_find_name(f, y, 0);
    lemma_sort_each(f);
    if x != y {
        lemma_insert_other_name(f, a, ka, y);
        lemma_insert_other_name(f, b, kb, x);
        lemma_insert_multiset(f, a, ka);
        lemma_insert_multiset(f, b, kb);
        lemma_insert_multiset(fa, b, kb);
        lemma_insert_multiset(fb, a, ka);
        let na = sort_node(node_inserted(node_of(f, x), a, ka));
        let nb = sort_node(node_inserted(node_of(f, y), b, kb));
        let m = sort_each(f).to_multiset();
        lemma_sort_each(fa);
        lemma_sort_each(fb);
        if let Some(i) = find_name(f, x, 0) {
            assert(sort_each(f)[i] == sort_node(f[i]));
            assert(sort_each(f).contains(sort_node(f[i])));
            assert(fb[i] == f[i]);
        }
        if let Some(j) = find_name(f, y, 0) {
            assert(sort_each(f)[j] == sort_node(f[j]));
            assert(sort_each(f).contains(sort_node(f[j])));
            assert(fa[j] == f[j]);
        }
        assert(sort_each(fab).to_multiset() =~= sort_each(fba).to_multiset());
        lemma_trie_insert_ok(f, a, ka);
        lemma_trie_insert_ok(f, b, kb);
        lemma_trie_insert_ok(fa, b, kb);
        lemma_trie_insert_ok(fb, a, ka);
        lemma_sort_forest_eq(fab, fba);
    } else {
        let found = find_name(f, x, 0);
        let f1 = if found is Some {
            f
        } else {
            f.push(empty_node(x))
        };
        let i = match found {
            Some(i) => i,
            None => f.len() as int,
        };
        let n = node_of(f, x);
        assert(f1[i] == n);
        let na = node_inserted(n, a, ka);
        let nb = node_inserted(n, b, kb);
        assert(fa == f1.update(i, na));
        assert(fb == f1.update(i, nb));
        if found is None {
            lemma_find_name_push(f, empty_node(x), x, 0);
        }
        assert(find_name(f1, x, 0) == Some(i));
        lemma_find_name_same_names(f1.update(i, na), f1, x, 0);
        lemma_find_name_same_names(f1.update(i, nb), f1, x, 0);
        assert(node_of(fa, x) == na);
        assert(node_of(fb, x) == nb);
        assert(fab == f1.update(i, na).update(i, node_inserted(na, b, kb)));
        assert(fba == f1.update(i, nb).update(i, node_inserted(nb, a, ka)));
        let nab = node_inserted(na, b, kb);
        let nba = node_inserted(nb, a, ka);
        if a.len() == 1 && b.len() == 1 {
            assert(a =~= b);
        } else if a.len() > 1 && b.len() > 1 {
            if let Some(i0) = found {
                lemma_trie_ok_parts(f, i0);
            } else {
                assert(trie_ok(Seq::<NodeV>::empty())) by {
                    assert(forest_all(Seq::<NodeV>::empty(), |m: NodeV| trie_node_ok(m)));
                }
            }
            assert(plain_names(a.drop_first())) by {
                assert forall|k: int| 0 <= k < a.drop_first().len() implies (#[trigger] a.drop_first()[k]).len() > 0
                    && !a.drop_first()[k].contains('/') by {
                    assert(a.drop_first()[k] == a[k + 1]);
                }
            }
            assert(plain_names(b.drop_first())) by {
                assert forall|k: int| 0 <= k < b.drop_first().len() implies (#[trigger] b.drop_first()[k]).len() > 0
                    && !b.drop_first()[k].contains('/') by {
                    assert(b.drop_first()[k] == b[k + 1]);
                }
            }
            assert(a.drop_first() != b.drop_first()) by {
                if a.drop_first() == b.drop_first() {
                    assert(a =~= seq![x] + a.drop_first());
                    assert(b =~= seq![x] + b.drop_first());
                }
            }
            lemma_insert_commute(n.children, a.drop_first(), ka, b.drop_first(), kb);
        }
        assert(sort_node(nab) == sort_node(nba));
        lemma_sort_each(fab);
        lemma_sort_each(fba);
        assert(fab =~= f1.update(i, nab));
        assert(fba =~= f1.update(i, nba));
        assert(sort_each(fab) =~= sort_each(fba));
    }
}

/// Paths no two of which split into the same non-empty list of segments;
/// any number of them may have no segment at all.
pub open spec fn distinct_present_segments(paths: Seq<Seq<char>>) -> bool {
    forall|i: int, j: int|
        0 <= i < j < paths.len() && #[trigger] segments(paths[i]).len() > 0 ==> segments(paths[i])
            != #[trigger] segments(paths[j])
}

proof fn lemma_distinct_present_drop_last(paths: Seq<Seq<char>>)
    requires
        distinct_present_segments(paths),
        paths.len() > 0,
    ensures
        distinct_present_segments(paths.drop_last()),
{
    let d = paths.drop_last();
    assert forall|i: int, j: int| 0 <= i < j < d.len() && #[trigger] segments(d[i]).len() > 0 implies segments(d[i])
        != #[trigger] segments(d[j]) by {
        assert(d[i] == paths[i] && d[j] == paths[j]);
    }
}

proof fn lemma_distinct_present_remove(paths: Seq<Seq<char>>, k: int)
    requires
        distinct_present_segments(paths),
        0 <= k < paths.len(),
    ensures
        distinct_present_segments(paths.remove(k)),
{
    let d = paths.remove(k);
    assert forall|i: int, j: int| 0 <= i < j < d.len() && #[trigger] segments(d[i]).len() > 0 implies segments(d[i])
        != #[trigger] segments(d[j]) by {
        let i2 = if i < k { i } else { i + 1 };
        let j2 = if j < k { j } else { j + 1 };
        assert(d[i] == paths[i2] && d[j] == paths[j2]);
    }
}

proof fn lemma_trie_ok_insert_all_then(paths: Seq<Seq<char>>, p: Seq<char>)
    ensures
        trie_ok(insert_all(paths)),
        trie_ok(trie_insert(insert_all(paths), segments(p), p)),
        plain_names(segments(p)),
{
    lemma_insert_all_ok(paths);
    lemma_segments(p);
    lemma_trie_insert_ok(insert_all(paths), segments(p), p);
}

/// Adding the paths with one of them moved to the end orders the same.
proof fn lemma_insert_all_move_last(q: Seq<Seq<char>>, k: int)
    requires
        distinct_present_segments(q),
        0 <= k < q.len(),
    ensures
        sort_forest(insert_all(q)) == sort_forest(trie_insert(insert_all(q.remove(k)), segments(q[k]), q[k])),
    decreases q.len(),
{
    let d = q.drop_last();
    let l = q.last();
    if k == q.len() - 1 {
        assert(q.remove(k) =~= d);
    } else {
        lemma_distinct_present_drop_last(q);
        assert(d[k] == q[k]);
        lemma_insert_all_move_last(d, k);
        let r = d.remove(k);
        assert(q.remove(k) =~= r.push(l));
        assert(r.push(l).drop_last() =~= r);
        lemma_trie_ok_insert_all_then(d, l);
        lemma_trie_ok_insert_all_then(r, q[k]);
        lemma_trie_ok_insert_all_then(r, l);
        lemma_insert_congruent(insert_all(d), trie_insert(insert_all(r), segments(q[k]), q[k]), segments(l), l);
        if segments(q[k]).len() > 0 {
            assert(segments(q[k]) != segments(q[q.len() - 1]));
        }
        lemma_insert_commute(insert_all(r), segments(q[k]), q[k], segments(l), l);
    }
}

/// Adding the same paths in any order orders the same.
proof fn lemma_insert_all_permutation(p: Seq<Seq<char>>, q: Seq<Seq<char>>)
    requires
        distinct_present_segments(q),
        p.to_multiset() == q.to_multiset(),
    ensures
        sort_forest(insert_all(p)) == sort_forest(insert_all(q)),
    decreases p.len(),
{
    broadcast use vstd::seq_lib::to_multiset_contains, vstd::seq_lib::to_multiset_remove,
        vstd::seq_lib::to_multiset_len, vstd::seq_lib::to_multiset_build;

    assert(p.to_multiset().len() == p.len());
    assert(q.to_multiset().len() == q.len());
    if p.len() == 0 {
        assert(q.len() == 0);
        assert(p =~= q);
    } else {
        let x = p.last();
        let p1 = p.drop_last();
        assert(p.contains(x));
        assert(p.to_multiset().count(x) > 0);
        assert(q.to_multiset().count(x) > 0);
        let k = choose|k: int| 0 <= k < q.len() && q[k] == x;
        let q1 = q.remove(k);
        assert(p1.push(x) =~= p);
        assert(p1.to_multiset() == q1.to_multiset());
        lemma_distinct_present_remove(q, k);
        lemma_insert_all_permutation(p1, q1);
        lemma_trie_ok_insert_all_then(p1, x);
        lemma_trie_ok_insert_all_then(q1, x);
        lemma_insert_congruent(insert_all(p1), insert_all(q1), segments(x), x);
        lemma_insert_all_move_last(q, k);
    }
}

/// Law: the tree does not depend on the order of the projects: where no two
/// paths split into the same non-empty list of segments (paths with no
/// segment, which add nothing, may be among them), the same paths in any
/// other order give the same tree.
pub proof fn lemma_tree_ignores_project_order(paths: Seq<Seq<char>>, other: Seq<Seq<char>>)
    requires
        distinct_present_segments(paths),
        other.to_multiset() == paths.to_multiset(),
    ensures
        tree_of(other) == tree_of(paths),
{
    lemma_insert_all_permutation(other, paths);
    lemma_insert_all_ok(other);
    lemma_insert_all_ok(paths);
    lemma_collapse_sort_forest(insert_all(other));
    lemma_collapse_sort_forest(insert_all(paths));
}

} // verus!
