//! The in-memory tree of a commit: an arena of nodes addressed by index,
//! each child after its parent, rebuilt from stored objects breadth-first.

use vstd::prelude::*;
use crate::object::{ObjectKind, TreeEntry, tree_entries, tree_text, tree_object, parse_tree, parse_commit, commit_header};
use crate::index::StagingIndex;
use crate::digest::sha1_hex;
use crate::store::ObjectStore;
use crate::text::{split, chars_of, slice_of, split_bounds, lemma_split_nonempty};
use vstd::string::StringExecFns;

verus! {

broadcast use vstd::string::group_string_axioms;

/// What a node holds, for contracts.
pub struct NodeView {
    pub path: Seq<char>,
    pub name: Seq<char>,
    pub kind: ObjectKind,
    pub hash: Seq<char>,
    pub parent: Option<usize>,
    pub children: Seq<usize>,
}

/// One position in a tree: a directory (tree) or a file (blob).
#[derive(Debug)]
pub struct TreeNode {
    /// Path relative to the repository root; `.` for the root itself.
    pub path: String,
    /// Last segment of the path; children are matched by it.
    pub name: String,
    pub kind: ObjectKind,
    /// Digest of the node's object; empty for the root of an empty history.
    pub hash: String,
    /// Index of the parent node; none for the root.
    pub parent: Option<usize>,
    /// Indices of the child nodes, in entry order.
    pub children: Vec<usize>,
}

impl View for TreeNode {
    type V = NodeView;

    open spec fn view(&self) -> NodeView {
        NodeView {
            path: self.path@,
            name: self.name@,
            kind: self.kind,
            hash: self.hash@,
            parent: self.parent,
            children: self.children@,
        }
    }
}

/// Every node but the root has a parent before it that lists it as a child.
#[verifier::opaque]
pub open spec fn parents_ok(t: Seq<NodeView>) -> bool {
    forall|k: int|
        0 < k < t.len() ==> match (#[trigger] t[k]).parent {
            Some(p) => p < k && t[p as int].children.contains(k as usize),
            None => false,
        }
}

/// Every child listed comes after its parent and names it as parent.
#[verifier::opaque]
pub open spec fn children_ok(t: Seq<NodeView>) -> bool {
    forall|k: int, j: int|
        0 <= k < t.len() && 0 <= j < t[k].children.len() ==> {
            &&& k < (#[trigger] t[k].children[j]) < t.len()
            &&& t[t[k].children[j] as int].parent == Some(k as usize)
        }
}

/// No node lists a child twice.
#[verifier::opaque]
pub open spec fn children_distinct(t: Seq<NodeView>) -> bool {
    forall|k: int| 0 <= k < t.len() ==> (#[trigger] t[k]).children.no_duplicates()
}

/// The arena is a tree rooted at index 0.
#[verifier::opaque]
pub open spec fn tree_wf(t: Seq<NodeView>) -> bool {
    &&& 0 < t.len() <= usize::MAX
    &&& t[0].parent is None
    &&& parents_ok(t)
    &&& children_ok(t)
    &&& children_distinct(t)
}

/// The last segment of a slash-separated path.
pub open spec fn last_segment(p: Seq<char>) -> Seq<char> {
    split(p, '/').last()
}

/// The root of a tree: the directory `.`.
pub open spec fn root_node(hash: Seq<char>) -> NodeView {
    NodeView {
        path: seq!['.'],
        name: seq!['.'],
        kind: ObjectKind::Tree,
        hash,
        parent: None,
        children: Seq::empty(),
    }
}

/// The node for one tree entry, below node `parent`.
pub open spec fn entry_node(e: (ObjectKind, Seq<char>, Seq<char>), parent: usize) -> NodeView {
    NodeView {
        path: e.2,
        name: last_segment(e.2),
        kind: e.0,
        hash: e.1,
        parent: Some(parent),
        children: Seq::empty(),
    }
}

/// Node `i` gets one new child per entry, appended at the end in order.
pub open spec fn with_children(
    t: Seq<NodeView>,
    i: int,
    es: Seq<(ObjectKind, Seq<char>, Seq<char>)>,
) -> Seq<NodeView> {
    let n = t.len();
    t.update(
        i,
        NodeView { children: Seq::new(es.len(), |j: int| (n + j) as usize), ..t[i] },
    ) + Seq::new(es.len(), |j: int| entry_node(es[j], i as usize))
}

/// Breadth-first expansion from node `i` on: each tree node whose object is
/// stored, and whose digest was not expanded before, gets the entries of
/// that object as children.
pub open spec fn bfs(
    store: Map<Seq<char>, Seq<char>>,
    t: Seq<NodeView>,
    i: int,
    seen: Set<Seq<char>>,
) -> Seq<NodeView>
    decreases store.dom().difference(seen).len(), t.len() - i,
    when 0 <= i && store.dom().finite()
    via bfs_decreases
{
    if i >= t.len() {
        t
    } else if t[i].kind == ObjectKind::Tree && store.contains_key(t[i].hash) && !seen.contains(
        t[i].hash,
    ) {
        bfs(store, with_children(t, i, tree_entries(store[t[i].hash])), i + 1, seen.insert(t[i].hash))
    } else {
        bfs(store, t, i + 1, seen)
    }
}

#[via_fn]
proof fn bfs_decreases(
    store: Map<Seq<char>, Seq<char>>,
    t: Seq<NodeView>,
    i: int,
    seen: Set<Seq<char>>,
) {
    if i < t.len() && t[i].kind == ObjectKind::Tree && store.contains_key(t[i].hash)
        && !seen.contains(t[i].hash) {
        lemma_difference_shrinks(store.dom(), seen, t[i].hash);
    }
}

proof fn lemma_difference_shrinks(dom: Set<Seq<char>>, seen: Set<Seq<char>>, h: Seq<char>)
    requires
        dom.finite(),
        dom.contains(h),
        !seen.contains(h),
    ensures
        dom.difference(seen.insert(h)).len() < dom.difference(seen).len(),
{
    assert(dom.difference(seen.insert(h)) =~= dom.difference(seen).remove(h));
    vstd::set::axiom_set_difference_finite(dom, seen);
    vstd::set::axiom_set_remove_len(dom.difference(seen), h);
}

/// Node `k` is one of the entries of the stored tree object of its parent.
pub open spec fn listed_by_parent(store: Map<Seq<char>, Seq<char>>, t: Seq<NodeView>, k: int) -> bool {
    match t[k].parent {
        Some(p) => {
            &&& p < k
            &&& store.contains_key(t[p as int].hash)
            &&& exists|j: int|
                0 <= j < tree_entries(store[t[p as int].hash]).len() && {
                    let e = #[trigger] tree_entries(store[t[p as int].hash])[j];
                    &&& t[k].kind == e.0
                    &&& t[k].hash == e.1
                    &&& t[k].path == e.2
                    &&& t[k].name == last_segment(e.2)
                }
        },
        None => false,
    }
}

/// Every node but the root is listed by its parent's stored tree object.
pub open spec fn all_listed(store: Map<Seq<char>, Seq<char>>, t: Seq<NodeView>) -> bool {
    forall|k: int| 0 < k < t.len() ==> #[trigger] listed_by_parent(store, t, k)
}

proof fn lemma_with_children_listed(
    store: Map<Seq<char>, Seq<char>>,
    t: Seq<NodeView>,
    i: int,
)
    requires
        all_listed(store, t),
        0 <= i < t.len(),
        t.len() + tree_entries(store[t[i].hash]).len() <= usize::MAX,
        store.contains_key(t[i].hash),
    ensures
        all_listed(store, with_children(t, i, tree_entries(store[t[i].hash]))),
        with_children(t, i, tree_entries(store[t[i].hash]))[0].hash == t[0].hash,
        with_children(t, i, tree_entries(store[t[i].hash]))[0].path == t[0].path,
        with_children(t, i, tree_entries(store[t[i].hash]))[0].kind == t[0].kind,
{
    let es = tree_entries(store[t[i].hash]);
    let t1 = with_children(t, i, es);
    lemma_with_children_parts(t, i, es);
    let n = t.len() as int;
    assert forall|k: int| 0 < k < t1.len() implies #[trigger] listed_by_parent(store, t1, k) by {
        if k >= n {
            let j = k - n;
            assert(t1[i] .hash == t[i].hash);
            assert(tree_entries(store[t1[i].hash])[j] == es[j]);
        } else {
            assert(listed_by_parent(store, t, k));
            let p = t[k].parent.unwrap() as int;
            assert(t1[k].kind == t[k].kind && t1[k].hash == t[k].hash && t1[k].path == t[k].path
                && t1[k].name == t[k].name && t1[k].parent == t[k].parent);
            assert(t1[p].hash == t[p].hash);
        }
    }
}

proof fn lemma_bfs_listed(
    store: Map<Seq<char>, Seq<char>>,
    t: Seq<NodeView>,
    i: int,
    seen: Set<Seq<char>>,
)
    requires
        all_listed(store, t),
        store.dom().finite(),
        0 <= i,
        t.len() > 0,
        bfs(store, t, i, seen).len() <= usize::MAX,
    ensures
        all_listed(store, bfs(store, t, i, seen)),
        bfs(store, t, i, seen)[0].hash == t[0].hash,
        bfs(store, t, i, seen)[0].path == t[0].path,
        bfs(store, t, i, seen)[0].kind == t[0].kind,
    decreases store.dom().difference(seen).len(), t.len() - i,
{
    if i < t.len() {
        if t[i].kind == ObjectKind::Tree && store.contains_key(t[i].hash) && !seen.contains(t[i].hash) {
            let es = tree_entries(store[t[i].hash]);
            lemma_difference_shrinks(store.dom(), seen, t[i].hash);
            lemma_bfs_grows(store, with_children(t, i, es), i + 1, seen.insert(t[i].hash));
            assert(with_children(t, i, es).len() == t.len() + es.len());
            lemma_with_children_listed(store, t, i);
            lemma_bfs_listed(store, with_children(t, i, es), i + 1, seen.insert(t[i].hash));
        } else {
            lemma_bfs_listed(store, t, i + 1, seen);
        }
    }
}

proof fn lemma_bfs_grows(store: Map<Seq<char>, Seq<char>>, t: Seq<NodeView>, i: int, seen: Set<Seq<char>>)
    requires
        store.dom().finite(),
        0 <= i,
    ensures
        bfs(store, t, i, seen).len() >= t.len(),
    decreases store.dom().difference(seen).len(), t.len() - i,
{
    if i < t.len() {
        if t[i].kind == ObjectKind::Tree && store.contains_key(t[i].hash) && !seen.contains(t[i].hash) {
            let es = tree_entries(store[t[i].hash]);
            lemma_difference_shrinks(store.dom(), seen, t[i].hash);
            lemma_bfs_grows(store, with_children(t, i, es), i + 1, seen.insert(t[i].hash));
        } else {
            lemma_bfs_grows(store, t, i + 1, seen);
        }
    }
}

/// The tree that loading `commit` yields: its tree object as root (an empty
/// root when the commit is missing or unreadable), expanded breadth-first.
pub open spec fn loaded_tree(store: Map<Seq<char>, Seq<char>>, commit: Seq<char>) -> Seq<NodeView> {
    let root = if store.contains_key(commit) && commit_header(store[commit]) is Some {
        root_node(commit_header(store[commit]).unwrap().0)
    } else {
        root_node(Seq::empty())
    };
    bfs(store, seq![root], 0, Set::empty())
}

/// A tree of nodes, root at index 0.
pub struct Tree {
    nodes: Vec<TreeNode>,
}

/// The last segment of a slash-separated path.
fn last_segment_of(p: &str) -> (r: String)
    ensures
        r@ == last_segment(p@),
{
    let cs = chars_of(p);
    let b = split_bounds(&cs, '/');
    proof {
        lemma_split_nonempty(p@, '/');
    }
    let k = b.len() - 1;
    slice_of(p, b[k].0, b[k].1)
}

fn new_root(hash: String) -> (r: TreeNode)
    ensures
        r@ == root_node(hash@),
{
    let dot = ".";
    proof {
        reveal_strlit(".");
    }
    assert(dot@ =~= seq!['.']);
    TreeNode {
        path: String::from_str(dot),
        name: String::from_str(dot),
        kind: ObjectKind::Tree,
        hash,
        parent: None,
        children: Vec::new(),
    }
}

impl Tree {
    pub closed spec fn view(&self) -> Seq<NodeView> {
        self.nodes@.map_values(|n: TreeNode| n@)
    }

    /// The number of nodes.
    pub fn len(&self) -> (r: usize)
        ensures
            r == self@.len(),
    {
        self.nodes.len()
    }

    /// The node at index `i`.
    pub fn node(&self, i: usize) -> (r: &TreeNode)
        requires
            i < self@.len(),
        ensures
            r@ == self@[i as int],
    {
        &self.nodes[i]
    }

    /// Loads the tree of `commit` from the store. A missing or unreadable
    /// commit gives a tree with only an empty root: no history yet.
    pub fn load(store: &ObjectStore, commit: &String) -> (r: Tree)
        requires
            store.wf(),
        ensures
            r@ == loaded_tree(store@, commit@),
            tree_wf(r@),
            r@[0].path == seq!['.'],
            r@[0].kind == ObjectKind::Tree,
            r@[0].hash == (if store@.contains_key(commit@) && commit_header(store@[commit@]) is Some {
                commit_header(store@[commit@]).unwrap().0
            } else {
                Seq::<char>::empty()
            }),
            all_listed(store@, r@),
            !store@.contains_key(r@[0].hash) ==> r@.len() == 1,
            !(store@.contains_key(commit@) && commit_header(store@[commit@]) is Some) ==> r@ == seq![
                root_node(Seq::<char>::empty()),
            ],
    {
        let ghost sv = store@;
        proof {
            store.lemma_dom_bound();
        }
        let root_hash = match store.get(commit) {
            Ok(text) => match parse_commit(text.as_str()) {
                Some((tree, _parent)) => tree,
                None => String::new(),
            },
            Err(_) => String::new(),
        };
        let mut nodes: Vec<TreeNode> = Vec::new();
        nodes.push(new_root(root_hash));
        let mut seen: Vec<String> = Vec::new();
        let ghost mut sset: Set<Seq<char>> = Set::empty();
        proof {
            let start = nodes@.map_values(|n: TreeNode| n@);
            assert(start =~= seq![start[0]]);
            assert(seen@.map_values(|s: String| s@).to_set() =~= sset);
            lemma_single_wf(start[0]);
        }
        let mut i: usize = 0;
        while i < nodes.len()
            invariant
                store.wf(),
                sv == store@,
                sv.dom().finite(),
                i <= nodes@.len(),
                sset == seen@.map_values(|s: String| s@).to_set(),
                bfs(sv, nodes@.map_values(|n: TreeNode| n@), i as int, sset) == loaded_tree(sv, commit@),
                tree_wf(nodes@.map_values(|n: TreeNode| n@)),
                forall|k: int| i <= k < nodes@.len() ==> (#[trigger] nodes@[k]).children@.len() == 0,
                sset.subset_of(sv.dom()),
            decreases sv.dom().difference(sset).len(), nodes@.len() - i,
        {
            let ghost t = nodes@.map_values(|n: TreeNode| n@);
            let mut expand = false;
            if nodes[i].kind == ObjectKind::Tree && store.contains(&nodes[i].hash) {
                expand = !contains_string(&seen, &nodes[i].hash);
            }
            if expand {
                let h = nodes[i].hash.clone();
                let text = match store.get(&h) {
                    Ok(x) => x,
                    Err(_) => String::new(),
                };
                let entries = parse_tree(text.as_str());
                let ghost seen_before = seen@.map_values(|s: String| s@);
                proof {
                    lemma_difference_shrinks(sv.dom(), sset, h@);
                    seen_before.lemma_push_to_set_commute(h@);
                }
                append_children(&mut nodes, i, &entries);
                seen.push(h);
                proof {
                    assert(seen@.map_values(|s: String| s@) =~= seen_before.push(h@));
                    sset = sset.insert(h@);
                }
            }
            i = i + 1;
        }
        proof {
            let root = if sv.contains_key(commit@) && commit_header(sv[commit@]) is Some {
                root_node(commit_header(sv[commit@]).unwrap().0)
            } else {
                root_node(Seq::empty())
            };
            assert(all_listed(sv, seq![root]));
            lemma_wf_len(nodes@.map_values(|n: TreeNode| n@));
            lemma_bfs_listed(sv, seq![root], 0, Set::empty());
            let e = Set::<Seq<char>>::empty();
            if !sv.contains_key(root.hash) {
                assert(bfs(sv, seq![root], 0, e) == bfs(sv, seq![root], 1, e));
                assert(bfs(sv, seq![root], 1, e) == seq![root]);
            }
            if sv.contains_key(Seq::<char>::empty()) {
                store.lemma_addressed(Seq::<char>::empty());
            }
        }
        Tree { nodes }
    }
}

/// Whether `s` occurs in `v`.
fn contains_string(v: &Vec<String>, s: &String) -> (r: bool)
    ensures
        r == v@.map_values(|x: String| x@).to_set().contains(s@),
{
    let mut i: usize = 0;
    while i < v.len()
        invariant
            i <= v@.len(),
            forall|k: int| 0 <= k < i ==> (#[trigger] v@[k])@ != s@,
        decreases v@.len() - i,
    {
        if v[i] == *s {
            assert(v@.map_values(|x: String| x@)[i as int] == s@);
            return true;
        }
        i = i + 1;
    }
    assert(!v@.map_values(|x: String| x@).to_set().contains(s@)) by {
        if v@.map_values(|x: String| x@).to_set().contains(s@) {
            let vv = v@.map_values(|x: String| x@);
            let k = choose|k: int| 0 <= k < vv.len() && #[trigger] vv[k] == s@;
            assert(v@[k]@ == s@);
        }
    }
    false
}

/// Gives node `i`, which has no children yet, one new child per entry.
fn append_children(nodes: &mut Vec<TreeNode>, i: usize, entries: &Vec<TreeEntry>)
    requires
        i < old(nodes)@.len(),
        old(nodes)@[i as int].children@.len() == 0,
        tree_wf(old(nodes)@.map_values(|n: TreeNode| n@)),
        forall|k: int| i < k < old(nodes)@.len() ==> (#[trigger] old(nodes)@[k]).children@.len() == 0,
    ensures
        final(nodes)@.len() == old(nodes)@.len() + entries@.len(),
        forall|k: int| i < k < final(nodes)@.len() ==> (#[trigger] final(nodes)@[k]).children@.len() == 0,
        final(nodes)@.map_values(|n: TreeNode| n@) == with_children(
            old(nodes)@.map_values(|n: TreeNode| n@),
            i as int,
            entries@.map_values(|e: TreeEntry| e@),
        ),
        tree_wf(final(nodes)@.map_values(|n: TreeNode| n@)),
{
    let ghost t0 = old(nodes)@.map_values(|n: TreeNode| n@);
    let ghost es = entries@.map_values(|e: TreeEntry| e@);
    let n = nodes.len();
    let mut kids: Vec<usize> = Vec::new();
    let mut j: usize = 0;
    while j < entries.len()
        invariant
            n == t0.len(),
            i < n,
            es == entries@.map_values(|e: TreeEntry| e@),
            j <= entries@.len(),
            nodes@.len() == n + j,
            kids@.len() == j,
            forall|k: int| 0 <= k < j ==> #[trigger] kids@[k] == n + k,
            forall|k: int| 0 <= k < n ==> (#[trigger] nodes@[k]) == old(nodes)@[k],
            forall|k: int| 0 <= k < n ==> (#[trigger] nodes@[k])@ == t0[k],
            forall|k: int| 0 <= k < j ==> (#[trigger] nodes@[n + k])@ == entry_node(es[k], i),
        decreases entries@.len() - j,
    {
        let e = &entries[j];
        let node = TreeNode {
            path: e.path.clone(),
            name: last_segment_of(e.path.as_str()),
            kind: e.kind,
            hash: e.hash.clone(),
            parent: Some(i),
            children: Vec::new(),
        };
        let idx = nodes.len();
        nodes.push(node);
        kids.push(idx);
        j = j + 1;
    }
    let total = nodes.len();
    assert(nodes@.len() <= usize::MAX);
    let old_i = &nodes[i];
    let replaced = TreeNode {
        path: old_i.path.clone(),
        name: old_i.name.clone(),
        kind: old_i.kind,
        hash: old_i.hash.clone(),
        parent: old_i.parent,
        children: kids,
    };
    let ghost before_set = nodes@;
    nodes.set(i, replaced);
    proof {
        let t1 = nodes@.map_values(|n: TreeNode| n@);
        let w = with_children(t0, i as int, es);
        lemma_with_children_parts(t0, i as int, es);
        assert forall|k: int| 0 <= k < t1.len() implies t1[k] == w[k] by {
            if k == i {
                assert(t1[k].children =~= w[k].children);
            } else if k >= n {
                assert(nodes@[k] == before_set[k]);
                assert(before_set[n + (k - n)]@ == entry_node(es[k - n], i));
            }
        }
        assert(t1 =~= w);
        lemma_with_children_wf(t0, i as int, es);
        assert forall|k: int| i < k < nodes@.len() implies (#[trigger] nodes@[k]).children@.len() == 0 by {
            assert(t1[k] == w[k]);
            if k < n {
                assert(w[k] == t0[k]);
            }
        }
    }
}

proof fn lemma_with_children_parts(t0: Seq<NodeView>, i: int, es: Seq<(ObjectKind, Seq<char>, Seq<char>)>)
    requires
        t0.len() + es.len() <= usize::MAX,
        0 <= i < t0.len(),
    ensures
        with_children(t0, i, es).len() == t0.len() + es.len(),
        forall|k: int| 0 <= k < t0.len() && k != i ==> #[trigger] with_children(t0, i, es)[k] == t0[k],
        forall|k: int|
            t0.len() <= k < t0.len() + es.len() ==> #[trigger] with_children(t0, i, es)[k] == entry_node(
                es[k - t0.len()],
                i as usize,
            ),
        with_children(t0, i, es)[i].children == Seq::new(es.len(), |j: int| (t0.len() + j) as usize),
        with_children(t0, i, es)[i].parent == t0[i].parent,
{
}

proof fn lemma_with_children_parents(t0: Seq<NodeView>, i: int, es: Seq<(ObjectKind, Seq<char>, Seq<char>)>)
    requires
        t0.len() + es.len() <= usize::MAX,
        parents_ok(t0),
        0 <= i < t0.len(),
        t0[i].children.len() == 0,
    ensures
        parents_ok(with_children(t0, i, es)),
{
    reveal(parents_ok);
    lemma_with_children_parts(t0, i, es);
    let t1 = with_children(t0, i, es);
    let n = t0.len() as int;
    assert forall|k: int| 0 < k < t1.len() implies match (#[trigger] t1[k]).parent {
        Some(p) => p < k && t1[p as int].children.contains(k as usize),
        None => false,
    } by {
        if k >= n {
            assert(t1[i].children[k - n] == k as usize);
        } else if k == i {
            let p = t0[k].parent.unwrap();
            assert(t1[p as int] == t0[p as int]);
        } else {
            assert(t1[k] == t0[k]);
            let p = t0[k].parent.unwrap();
            assert(t0[p as int].children.contains(k as usize));
            if p != i {
                assert(t1[p as int] == t0[p as int]);
            }
        }
    }
}

proof fn lemma_with_children_children(t0: Seq<NodeView>, i: int, es: Seq<(ObjectKind, Seq<char>, Seq<char>)>)
    requires
        t0.len() + es.len() <= usize::MAX,
        children_ok(t0),
        0 <= i < t0.len(),
    ensures
        children_ok(with_children(t0, i, es)),
{
    reveal(children_ok);
    lemma_with_children_parts(t0, i, es);
    let t1 = with_children(t0, i, es);
    let n = t0.len() as int;
    assert forall|k: int, j: int|
        0 <= k < t1.len() && 0 <= j < t1[k].children.len() implies {
        &&& k < (#[trigger] t1[k].children[j]) < t1.len()
        &&& t1[t1[k].children[j] as int].parent == Some(k as usize)
    } by {
        if k != i && k < n {
            assert(t1[k] == t0[k]);
            let c = t0[k].children[j] as int;
            assert(c < n);
            if c != i {
                assert(t1[c] == t0[c]);
            } else {
                assert(t1[c].parent == t0[c].parent);
            }
        } else if k == i {
            assert(t1[i].children[j] == (n + j) as usize);
            assert(t1[n + j] == entry_node(es[j], i as usize));
        }
    }
}

proof fn lemma_with_children_distinct(t0: Seq<NodeView>, i: int, es: Seq<(ObjectKind, Seq<char>, Seq<char>)>)
    requires
        t0.len() + es.len() <= usize::MAX,
        children_distinct(t0),
        0 <= i < t0.len(),
    ensures
        children_distinct(with_children(t0, i, es)),
{
    reveal(children_distinct);
    lemma_with_children_parts(t0, i, es);
    let t1 = with_children(t0, i, es);
    let n = t0.len() as int;
    assert forall|k: int| 0 <= k < t1.len() implies (#[trigger] t1[k]).children.no_duplicates() by {
        if k < n && k != i {
            assert(t1[k] == t0[k]);
        } else if k == i {
            let cs = t1[i].children;
            assert forall|a: int, b: int| 0 <= a < cs.len() && 0 <= b < cs.len() && a != b implies cs[a] != cs[b] by {
                assert(cs[a] == (n + a) as usize);
                assert(cs[b] == (n + b) as usize);
            }
        }
    }
}

proof fn lemma_with_children_wf(t0: Seq<NodeView>, i: int, es: Seq<(ObjectKind, Seq<char>, Seq<char>)>)
    requires
        t0.len() + es.len() <= usize::MAX,
        tree_wf(t0),
        0 <= i < t0.len(),
        t0[i].children.len() == 0,
    ensures
        tree_wf(with_children(t0, i, es)),
{
    reveal(tree_wf);
    lemma_with_children_parts(t0, i, es);
    lemma_with_children_parents(t0, i, es);
    lemma_with_children_children(t0, i, es);
    lemma_with_children_distinct(t0, i, es);
}

/// Drops the `.` pieces of a split path.
pub open spec fn drop_dots(ls: Seq<Seq<char>>) -> Seq<Seq<char>>
    decreases ls.len(),
{
    if ls.len() == 0 {
        ls
    } else {
        let prev = drop_dots(ls.drop_last());
        if ls.last() == seq!['.'] {
            prev
        } else {
            prev.push(ls.last())
        }
    }
}

/// The directory names and file name that a path walks through.
pub open spec fn path_segments(p: Seq<char>) -> Seq<Seq<char>> {
    drop_dots(split(p, '/'))
}

/// The first of the nodes `cs` named `name`.
pub open spec fn first_named(t: Seq<NodeView>, cs: Seq<usize>, name: Seq<char>) -> Option<usize>
    decreases cs.len(),
{
    if cs.len() == 0 {
        None
    } else {
        match first_named(t, cs.drop_last(), name) {
            Some(c) => Some(c),
            None => if t[cs.last() as int].name == name {
                Some(cs.last())
            } else {
                None
            },
        }
    }
}

/// A new node named `seg` below node `at`. Its path is relative to the
/// repository root: `seg` itself below the root, `<parent path>/seg` deeper.
pub open spec fn new_node(
    t: Seq<NodeView>,
    at: int,
    seg: Seq<char>,
    kind: ObjectKind,
    hash: Seq<char>,
) -> NodeView {
    NodeView {
        path: if at == 0 {
            seg
        } else {
            t[at].path + seq!['/'] + seg
        },
        name: seg,
        kind,
        hash,
        parent: Some(at as usize),
        children: Seq::empty(),
    }
}

/// `node` appended as the last child of node `at`.
pub open spec fn add_node(t: Seq<NodeView>, at: int, node: NodeView) -> Seq<NodeView> {
    t.update(at, NodeView { children: t[at].children.push(t.len() as usize), ..t[at] }).push(node)
}

/// Places blob `d` at the path `segs` below node `at`: an existing node
/// with the final name takes the new digest; missing directories and the
/// file are created. Also says whether anything changed.
pub open spec fn place(t: Seq<NodeView>, at: int, segs: Seq<Seq<char>>, d: Seq<char>) -> (
    Seq<NodeView>,
    bool,
)
    decreases segs.len(),
{
    if segs.len() == 0 {
        (t, false)
    } else {
        let seg = segs[0];
        let last = segs.len() == 1;
        match first_named(t, t[at].children, seg) {
            Some(c) => if last {
                if t[c as int].hash != d {
                    (t.update(c as int, NodeView { hash: d, kind: ObjectKind::Blob, ..t[c as int] }), true)
                } else {
                    (t, false)
                }
            } else {
                place(t, c as int, segs.drop_first(), d)
            },
            None => {
                let kind = if last {
                    ObjectKind::Blob
                } else {
                    ObjectKind::Tree
                };
                let hash = if last {
                    d
                } else {
                    Seq::empty()
                };
                let t2 = add_node(t, at, new_node(t, at, seg, kind, hash));
                if last {
                    (t2, true)
                } else {
                    (place(t2, t.len() as int, segs.drop_first(), d).0, true)
                }
            },
        }
    }
}

/// The tree with every staged file placed in turn, and whether anything
/// changed.
pub open spec fn overlay(t: Seq<NodeView>, staged: Seq<(Seq<char>, Seq<char>)>) -> (
    Seq<NodeView>,
    bool,
)
    decreases staged.len(),
{
    if staged.len() == 0 {
        (t, false)
    } else {
        let prev = overlay(t, staged.drop_last());
        let next = place(prev.0, 0, path_segments(staged.last().0), staged.last().1);
        (next.0, prev.1 || next.1)
    }
}

proof fn lemma_single_wf(n: NodeView)
    requires
        n.parent is None,
        n.children.len() == 0,
    ensures
        tree_wf(seq![n]),
{
    reveal(parents_ok);
    reveal(children_ok);
    reveal(children_distinct);
    reveal(tree_wf);
}

/// A tree has a root.
pub proof fn lemma_wf_len(t: Seq<NodeView>)
    requires
        tree_wf(t),
    ensures
        0 < t.len() <= usize::MAX,
{
    reveal(tree_wf);
}

#[verifier::rlimit(50)]
proof fn lemma_add_node_parents(t: Seq<NodeView>, at: int, node: NodeView)
    requires
        parents_ok(t),
        0 <= at < t.len(),
        t.len() < usize::MAX,
        node.parent == Some(at as usize),
    ensures
        parents_ok(add_node(t, at, node)),
{
    reveal(parents_ok);
    let t1 = add_node(t, at, node);
    let n = t.len() as int;
    assert forall|k: int| 0 < k < t1.len() implies match (#[trigger] t1[k]).parent {
        Some(p) => p < k && t1[p as int].children.contains(k as usize),
        None => false,
    } by {
        if k == n {
            assert(t1[at].children.last() == n as usize);
        } else {
            assert(t1[k].parent == t[k].parent);
            let p = t[k].parent.unwrap();
            assert(t[p as int].children.contains(k as usize));
            let j = choose|j: int| 0 <= j < t[p as int].children.len() && t[p as int].children[j] == k as usize;
            assert(t1[p as int].children[j] == k as usize);
        }
    }
}

proof fn lemma_add_node_children(t: Seq<NodeView>, at: int, node: NodeView)
    requires
        children_ok(t),
        0 <= at < t.len(),
        t.len() < usize::MAX,
        node.parent == Some(at as usize),
        node.children.len() == 0,
    ensures
        children_ok(add_node(t, at, node)),
{
    reveal(children_ok);
    let t1 = add_node(t, at, node);
    let n = t.len() as int;
    assert forall|k: int, j: int|
        0 <= k < t1.len() && 0 <= j < t1[k].children.len() implies {
        &&& k < (#[trigger] t1[k].children[j]) < t1.len()
        &&& t1[t1[k].children[j] as int].parent == Some(k as usize)
    } by {
        if k < n {
            if k == at && j == t[at].children.len() {
            } else {
                assert(t1[k].children[j] == t[k].children[j]);
                let c = t[k].children[j] as int;
                assert(t1[c].parent == t[c].parent);
            }
        }
    }
}

proof fn lemma_add_node_distinct(t: Seq<NodeView>, at: int, node: NodeView)
    requires
        children_ok(t),
        children_distinct(t),
        0 <= at < t.len(),
        t.len() < usize::MAX,
        node.children.len() == 0,
    ensures
        children_distinct(add_node(t, at, node)),
{
    reveal(children_ok);
    reveal(children_distinct);
    let t1 = add_node(t, at, node);
    let n = t.len() as int;
    assert forall|k: int| 0 <= k < t1.len() implies (#[trigger] t1[k]).children.no_duplicates() by {
        if k == at {
            let cs = t1[at].children;
            let old_cs = t[at].children;
            assert(cs == old_cs.push(n as usize));
            assert forall|a: int, b: int| 0 <= a < cs.len() && 0 <= b < cs.len() && a != b implies cs[a] != cs[b] by {
                if a < old_cs.len() {
                    assert(old_cs[a] < n);
                }
                if b < old_cs.len() {
                    assert(old_cs[b] < n);
                }
            }
        } else if k < n {
            assert(t1[k] == t[k]);
        }
    }
}

#[verifier::rlimit(50)]
proof fn lemma_add_node_wf(t: Seq<NodeView>, at: int, node: NodeView)
    requires
        tree_wf(t),
        0 <= at < t.len(),
        t.len() < usize::MAX,
        node.parent == Some(at as usize),
        node.children.len() == 0,
    ensures
        tree_wf(add_node(t, at, node)),
        add_node(t, at, node).len() == t.len() + 1,
{
    reveal(tree_wf);
    lemma_add_node_parents(t, at, node);
    lemma_add_node_children(t, at, node);
    lemma_add_node_distinct(t, at, node);
}

proof fn lemma_set_blob_wf(t: Seq<NodeView>, c: int, d: Seq<char>)
    requires
        tree_wf(t),
        0 <= c < t.len(),
    ensures
        tree_wf(t.update(c, NodeView { hash: d, kind: ObjectKind::Blob, ..t[c] })),
{
    let t1 = t.update(c, NodeView { hash: d, kind: ObjectKind::Blob, ..t[c] });
    assert(same_links(t, t1));
    lemma_same_links_wf(t, t1);
}

/// The links of a node: its parent and its children.
pub open spec fn same_links(t: Seq<NodeView>, t1: Seq<NodeView>) -> bool {
    &&& t1.len() == t.len()
    &&& forall|k: int| 0 <= k < t.len() ==> (#[trigger] t1[k]).parent == t[k].parent
    &&& forall|k: int| 0 <= k < t.len() ==> (#[trigger] t1[k]).children == t[k].children
}

proof fn lemma_same_links_parents(t: Seq<NodeView>, t1: Seq<NodeView>)
    requires
        parents_ok(t),
        same_links(t, t1),
    ensures
        parents_ok(t1),
{
    reveal(parents_ok);
    assert forall|k: int| 0 < k < t1.len() implies match (#[trigger] t1[k]).parent {
        Some(p) => p < k && t1[p as int].children.contains(k as usize),
        None => false,
    } by {
        assert(t1[k].parent == t[k].parent);
        if let Some(p) = t[k].parent {
            assert(t1[p as int].children == t[p as int].children);
        }
    }
}

proof fn lemma_same_links_children(t: Seq<NodeView>, t1: Seq<NodeView>)
    requires
        children_ok(t),
        same_links(t, t1),
    ensures
        children_ok(t1),
{
    reveal(children_ok);
    assert forall|k: int, j: int|
        0 <= k < t1.len() && 0 <= j < t1[k].children.len() implies {
        &&& k < (#[trigger] t1[k].children[j]) < t1.len()
        &&& t1[t1[k].children[j] as int].parent == Some(k as usize)
    } by {
        assert(t1[k].children == t[k].children);
        let c = t[k].children[j] as int;
        assert(t1[c].parent == t[c].parent);
    }
}

proof fn lemma_same_links_distinct(t: Seq<NodeView>, t1: Seq<NodeView>)
    requires
        children_distinct(t),
        same_links(t, t1),
    ensures
        children_distinct(t1),
{
    reveal(children_distinct);
    assert forall|k: int| 0 <= k < t1.len() implies (#[trigger] t1[k]).children.no_duplicates() by {
        assert(t1[k].children == t[k].children);
    }
}

/// Changing what nodes hold, but not how they are linked, keeps a tree.
#[verifier::rlimit(30)]
proof fn lemma_same_links_wf(t: Seq<NodeView>, t1: Seq<NodeView>)
    requires
        tree_wf(t),
        same_links(t, t1),
    ensures
        tree_wf(t1),
{
    reveal(tree_wf);
    lemma_same_links_parents(t, t1);
    lemma_same_links_children(t, t1);
    lemma_same_links_distinct(t, t1);
}

impl Tree {
    /// The first child of node `at` named `name`.
    fn find_child(&self, at: usize, name: &String) -> (r: Option<usize>)
        requires
            at < self@.len(),
            tree_wf(self@),
        ensures
            r == first_named(self@, self@[at as int].children, name@),
            r matches Some(c) ==> at < c < self@.len(),
    {
        proof {
            reveal(tree_wf);
        }
        let ghost t = self@;
        let ghost cs = t[at as int].children;
        let kids = &self.nodes[at].children;
        let mut found: Option<usize> = None;
        let mut j: usize = 0;
        while j < kids.len()
            invariant
                t == self@,
                tree_wf(t),
                at < t.len(),
                cs == t[at as int].children,
                kids@ == cs,
                j <= cs.len(),
                found == first_named(t, cs.take(j as int), name@),
                found matches Some(c) ==> at < c < t.len(),
            decreases cs.len() - j,
        {
            assert(cs.take(j + 1).drop_last() =~= cs.take(j as int));
            assert(cs.take(j + 1).last() == cs[j as int]);
            let c = kids[j];
            assert(at < c < t.len()) by {
                reveal(tree_wf);
                reveal(children_ok);
                assert(children_ok(t));
                assert(t[at as int].children[j as int] == c);
            }
            if found.is_none() && self.nodes[c].name == *name {
                found = Some(c);
            }
            j = j + 1;
        }
        assert(cs.take(j as int) =~= cs);
        found
    }

    /// Appends a new node named `seg` below node `at`; returns its index.
    fn add_child(&mut self, at: usize, seg: &String, kind: ObjectKind, hash: String) -> (r: usize)
        requires
            at < old(self)@.len(),
            tree_wf(old(self)@),
        ensures
            r == old(self)@.len(),
            final(self)@ == add_node(old(self)@, at as int, new_node(old(self)@, at as int, seg@, kind, hash@)),
            tree_wf(final(self)@),
    {
        let ghost t = self@;
        let slash = "/";
        proof {
            reveal_strlit("/");
        }
        let mut path = seg.clone();
        if at != 0 {
            path = self.nodes[at].path.clone();
            path.append(slash);
            path.append(seg.as_str());
        }
        let n = self.nodes.len();
        let node = TreeNode {
            path,
            name: seg.clone(),
            kind,
            hash,
            parent: Some(at),
            children: Vec::new(),
        };
        self.nodes.push(node);
        let total = self.nodes.len();
        let old_at = &self.nodes[at];
        let mut kids = old_at.children.clone();
        kids.push(n);
        let replaced = TreeNode {
            path: old_at.path.clone(),
            name: old_at.name.clone(),
            kind: old_at.kind,
            hash: old_at.hash.clone(),
            parent: old_at.parent,
            children: kids,
        };
        self.nodes.set(at, replaced);
        proof {
            let nn = new_node(t, at as int, seg@, kind, hash@);
            let w = add_node(t, at as int, nn);
            assert(self@[n as int].path =~= nn.path);
            assert(self@ =~= w) by {
                assert forall|k: int| 0 <= k < w.len() implies self@[k] == w[k] by {
                    if k == at {
                        assert(self@[k].children =~= w[k].children);
                    }
                }
            }
            lemma_add_node_wf(t, at as int, nn);
        }
        n
    }

    /// Sets node `c` to be a blob with digest `d`.
    fn set_blob(&mut self, c: usize, d: &String)
        requires
            c < old(self)@.len(),
            tree_wf(old(self)@),
        ensures
            final(self)@ == old(self)@.update(
                c as int,
                NodeView { hash: d@, kind: ObjectKind::Blob, ..old(self)@[c as int] },
            ),
            tree_wf(final(self)@),
    {
        let ghost t = self@;
        let old_c = &self.nodes[c];
        let replaced = TreeNode {
            path: old_c.path.clone(),
            name: old_c.name.clone(),
            kind: ObjectKind::Blob,
            hash: d.clone(),
            parent: old_c.parent,
            children: old_c.children.clone(),
        };
        self.nodes.set(c, replaced);
        proof {
            let w = t.update(c as int, NodeView { hash: d@, kind: ObjectKind::Blob, ..t[c as int] });
            assert(self@[c as int].children =~= w[c as int].children);
            assert(self@ =~= w);
            lemma_set_blob_wf(t, c as int, d@);
        }
    }

    /// Places blob `d` at the path `segs` below the root; says whether the
    /// tree changed.
    pub fn place_blob(&mut self, segs: &Vec<String>, d: &String) -> (r: bool)
        requires
            tree_wf(old(self)@),
        ensures
            (final(self)@, r) == place(old(self)@, 0, segs@.map_values(|s: String| s@), d@),
            tree_wf(final(self)@),
    {
        let ghost sv = segs@.map_values(|s: String| s@);
        let ghost goal = place(self@, 0, sv, d@);
        proof {
            lemma_wf_len(self@);
        }
        let mut at: usize = 0;
        let mut changed = false;
        let mut idx: usize = 0;
        assert(sv.skip(0) =~= sv);
        while idx < segs.len()
            invariant
                tree_wf(self@),
                at < self@.len(),
                idx <= segs@.len(),
                sv == segs@.map_values(|s: String| s@),
                goal == place(old(self)@, 0, sv, d@),
                goal == (place(self@, at as int, sv.skip(idx as int), d@).0, place(self@, at as int, sv.skip(idx as int), d@).1 || changed),
            decreases segs@.len() - idx,
        {
            let ghost t = self@;
            let ghost rest = sv.skip(idx as int);
            assert(rest[0] == segs@[idx as int]@);
            assert(rest.drop_first() =~= sv.skip(idx + 1));
            let last = idx + 1 == segs.len();
            match self.find_child(at, &segs[idx]) {
                Some(c) => {
                    if last {
                        assert(rest.len() == 1);
                        if !(self.nodes[c].hash == *d) {
                            self.set_blob(c, d);
                            return true;
                        }
                        return changed;
                    }
                    at = c;
                },
                None => {
                    if last {
                        self.add_child(at, &segs[idx], ObjectKind::Blob, d.clone());
                        return true;
                    }
                    let c = self.add_child(at, &segs[idx], ObjectKind::Tree, String::new());
                    changed = true;
                    at = c;
                },
            }
            idx = idx + 1;
        }
        assert(sv.skip(idx as int).len() == 0);
        changed
    }
}

/// The entries that the object of tree node `k` lists: one per child, in order.
pub open spec fn child_entries(t: Seq<NodeView>, k: int) -> Seq<(ObjectKind, Seq<char>, Seq<char>)> {
    t[k].children.map_values(|c: usize| (t[c as int].kind, t[c as int].hash, t[c as int].path))
}

/// The digest of tree node `k` is that of the tree object it stands for.
#[verifier::opaque]
pub open spec fn tree_hash_ok(t: Seq<NodeView>, k: int) -> bool {
    t[k].hash == sha1_hex(tree_text(child_entries(t, k), t[k].path))
}

/// `t1` is `t0` with new digests for tree nodes only.
pub open spec fn rehashed(t0: Seq<NodeView>, t1: Seq<NodeView>) -> bool {
    &&& same_links(t0, t1)
    &&& forall|k: int|
        0 <= k < t0.len() ==> {
            &&& (#[trigger] t1[k]).path == t0[k].path
            &&& t1[k].name == t0[k].name
            &&& t1[k].kind == t0[k].kind
            &&& (t0[k].kind != ObjectKind::Tree ==> t1[k].hash == t0[k].hash)
        }
}

fn segment_is_dot(s: &String) -> (r: bool)
    ensures
        r == (s@ == seq!['.']),
{
    let dot = String::from_str(".");
    proof {
        reveal_strlit(".");
    }
    assert(dot@ =~= seq!['.']);
    *s == dot
}

/// The directory names and file name that a path walks through.
pub fn segments_of(p: &str) -> (r: Vec<String>)
    ensures
        r@.map_values(|s: String| s@) == path_segments(p@),
{
    let cs = chars_of(p);
    let b = split_bounds(&cs, '/');
    let ghost ls = split(p@, '/');
    let mut r: Vec<String> = Vec::new();
    let mut i: usize = 0;
    while i < b.len()
        invariant
            i <= b@.len(),
            cs@ == p@,
            ls == split(p@, '/'),
            b@.len() == ls.len(),
            forall|k: int| 0 <= k < b@.len() ==> #[trigger] b@[k].0 <= b@[k].1 <= cs@.len(),
            forall|k: int| 0 <= k < b@.len() ==> cs@.subrange(b@[k].0 as int, b@[k].1 as int) == #[trigger] ls[k],
            r@.map_values(|s: String| s@) == drop_dots(ls.take(i as int)),
        decreases b@.len() - i,
    {
        let seg = slice_of(p, b[i].0, b[i].1);
        assert(seg@ == ls[i as int]);
        assert(ls.take(i + 1).drop_last() =~= ls.take(i as int));
        assert(ls.take(i + 1).last() == ls[i as int]);
        let ghost before = r@;
        if !segment_is_dot(&seg) {
            r.push(seg);
            assert(r@.map_values(|s: String| s@) =~= before.map_values(|s: String| s@).push(ls[i as int]));
        }
        i = i + 1;
    }
    assert(ls.take(i as int) =~= ls);
    r
}

proof fn lemma_child_entries_keep(t: Seq<NodeView>, i: int, h: Seq<char>, k: int)
    requires
        tree_wf(t),
        0 <= i < k < t.len(),
    ensures
        child_entries(t.update(i, NodeView { hash: h, ..t[i] }), k) == child_entries(t, k),
        t.update(i, NodeView { hash: h, ..t[i] })[k] == t[k],
{
    reveal(children_ok);
    reveal(tree_wf);
    let t1 = t.update(i, NodeView { hash: h, ..t[i] });
    assert forall|j: int| 0 <= j < t[k].children.len() implies #[trigger] t1[t[k].children[j] as int] == t[t[k].children[j] as int] by {
        assert(children_ok(t));
        assert(k < t[k].children[j]);
    }
    assert(child_entries(t1, k) =~= child_entries(t, k));
}

proof fn lemma_write_step(
    t0: Seq<NodeView>,
    t: Seq<NodeView>,
    t1: Seq<NodeView>,
    j: int,
    h: Seq<char>,
    before: Map<Seq<char>, Seq<char>>,
    after: Map<Seq<char>, Seq<char>>,
)
    requires
        tree_wf(t),
        rehashed(t0, t),
        t.len() == t0.len(),
        0 <= j < t.len(),
        t[j].kind == ObjectKind::Tree,
        t1 == t.update(j, NodeView { hash: h, ..t[j] }),
        h == sha1_hex(tree_text(child_entries(t, j), t[j].path)),
        after == before.insert(h, tree_text(child_entries(t, j), t[j].path)),
        forall|k: int|
            j < k < t.len() && t[k].kind == ObjectKind::Tree ==> {
                &&& #[trigger] tree_hash_ok(t, k)
                &&& before.contains_key(t[k].hash)
            },
    ensures
        tree_wf(t1),
        rehashed(t0, t1),
        forall|k: int|
            j <= k < t1.len() && t1[k].kind == ObjectKind::Tree ==> {
                &&& #[trigger] tree_hash_ok(t1, k)
                &&& after.contains_key(t1[k].hash)
            },
{
    assert(same_links(t, t1));
    lemma_same_links_wf(t, t1);
    assert(rehashed(t0, t1)) by {
        assert forall|k: int| 0 <= k < t0.len() implies (#[trigger] t1[k]).parent == t0[k].parent by {
            assert(t1[k].parent == t[k].parent);
        }
        assert forall|k: int| 0 <= k < t0.len() implies (#[trigger] t1[k]).children == t0[k].children by {
            assert(t1[k].children == t[k].children);
        }
    }
    assert forall|k: int|
        j <= k < t1.len() && t1[k].kind == ObjectKind::Tree implies {
            &&& #[trigger] tree_hash_ok(t1, k)
            &&& after.contains_key(t1[k].hash)
        } by {
        if k > j {
            assert(tree_hash_ok(t, k));
            lemma_write_keeps(t, j, h, k);
        } else {
            lemma_write_sets(t, j, h);
        }
    }
}

proof fn lemma_write_keeps(t: Seq<NodeView>, j: int, h: Seq<char>, k: int)
    requires
        tree_wf(t),
        0 <= j < k < t.len(),
        tree_hash_ok(t, k),
    ensures
        tree_hash_ok(t.update(j, NodeView { hash: h, ..t[j] }), k),
        t.update(j, NodeView { hash: h, ..t[j] })[k] == t[k],
{
    reveal(tree_hash_ok);
    lemma_child_entries_keep(t, j, h, k);
}

proof fn lemma_write_sets(t: Seq<NodeView>, j: int, h: Seq<char>)
    requires
        tree_wf(t),
        0 <= j < t.len(),
        h == sha1_hex(tree_text(child_entries(t, j), t[j].path)),
    ensures
        tree_hash_ok(t.update(j, NodeView { hash: h, ..t[j] }), j),
{
    reveal(tree_hash_ok);
    lemma_child_entries_self(t, j, h);
}

proof fn lemma_child_entries_self(t: Seq<NodeView>, j: int, h: Seq<char>)
    requires
        tree_wf(t),
        0 <= j < t.len(),
    ensures
        child_entries(t.update(j, NodeView { hash: h, ..t[j] }), j) == child_entries(t, j),
{
    reveal(children_ok);
    reveal(tree_wf);
    let t1 = t.update(j, NodeView { hash: h, ..t[j] });
    assert forall|m: int| 0 <= m < t[j].children.len() implies #[trigger] t1[t[j].children[m] as int] == t[t[j].children[m] as int] by {
        assert(children_ok(t));
        assert(j < t[j].children[m]);
    }
    assert(child_entries(t1, j) =~= child_entries(t, j));
}

impl Tree {
    /// Places every staged file in turn; says whether the tree changed.
    pub fn overlay_index(&mut self, index: &StagingIndex) -> (r: bool)
        requires
            tree_wf(old(self)@),
        ensures
            (final(self)@, r) == overlay(old(self)@, index@),
            tree_wf(final(self)@),
    {
        let ghost s = index@;
        let mut changed = false;
        let mut i: usize = 0;
        assert(s.take(0) =~= Seq::<(Seq<char>, Seq<char>)>::empty());
        while i < index.len()
            invariant
                s == index@,
                i <= s.len(),
                tree_wf(self@),
                (self@, changed) == overlay(old(self)@, s.take(i as int)),
            decreases s.len() - i,
        {
            let (path, digest) = index.get(i);
            let segs = segments_of(path.as_str());
            assert(s.take(i + 1).drop_last() =~= s.take(i as int));
            assert(s.take(i + 1).last() == s[i as int]);
            let c = self.place_blob(&segs, digest);
            changed = changed || c;
            i = i + 1;
        }
        assert(s.take(i as int) =~= s);
        changed
    }

    fn set_hash(&mut self, i: usize, h: String)
        requires
            i < old(self)@.len(),
        ensures
            final(self)@ == old(self)@.update(i as int, NodeView { hash: h@, ..old(self)@[i as int] }),
    {
        let ghost t = self@;
        let old_i = &self.nodes[i];
        let replaced = TreeNode {
            path: old_i.path.clone(),
            name: old_i.name.clone(),
            kind: old_i.kind,
            hash: h,
            parent: old_i.parent,
            children: old_i.children.clone(),
        };
        self.nodes.set(i, replaced);
        proof {
            let w = t.update(i as int, NodeView { hash: h@, ..t[i as int] });
            assert(self@[i as int].children =~= w[i as int].children);
            assert(self@ =~= w);
        }
    }

    /// The entries of tree node `i`'s object.
    fn entries_of(&self, i: usize) -> (r: Vec<TreeEntry>)
        requires
            i < self@.len(),
            tree_wf(self@),
        ensures
            r@.map_values(|e: TreeEntry| e@) == child_entries(self@, i as int),
    {
        let ghost t = self@;
        proof {
            reveal(tree_wf);
        }
        let kids = &self.nodes[i].children;
        let mut r: Vec<TreeEntry> = Vec::new();
        let mut j: usize = 0;
        while j < kids.len()
            invariant
                t == self@,
                i < t.len(),
                children_ok(t),
                kids@ == t[i as int].children,
                j <= kids@.len(),
                r@.len() == j,
                forall|k: int| 0 <= k < j ==> (#[trigger] r@[k])@ == child_entries(t, i as int)[k],
            decreases kids@.len() - j,
        {
            let c = kids[j];
            assert(c < t.len()) by {
                reveal(children_ok);
            }
            let n = &self.nodes[c];
            r.push(TreeEntry { kind: n.kind, hash: n.hash.clone(), path: n.path.clone() });
            j = j + 1;
        }
        assert(r@.map_values(|e: TreeEntry| e@) =~= child_entries(t, i as int));
        r
    }

    /// Writes a tree object for every tree node, children before parents,
    /// and gives each tree node the digest of its object.
    pub fn write_trees(&mut self, store: &mut ObjectStore)
        requires
            tree_wf(old(self)@),
            old(store).wf(),
        ensures
            tree_wf(final(self)@),
            rehashed(old(self)@, final(self)@),
            final(store).wf(),
            forall|d: Seq<char>| old(store)@.contains_key(d) ==> final(store)@.contains_key(d),
            forall|k: int|
                0 <= k < final(self)@.len() && final(self)@[k].kind == ObjectKind::Tree ==> {
                    &&& #[trigger] tree_hash_ok(final(self)@, k)
                    &&& final(store)@.contains_key(final(self)@[k].hash)
                },
    {
        let ghost t0 = self@;
        let mut j: usize = self.nodes.len();
        proof {
            assert(same_links(t0, t0));
        }
        while j > 0
            invariant
                j <= self@.len(),
                self@.len() == t0.len(),
                tree_wf(self@),
                store.wf(),
                rehashed(t0, self@),
                forall|d: Seq<char>| old(store)@.contains_key(d) ==> store@.contains_key(d),
                forall|k: int|
                    j <= k < self@.len() && self@[k].kind == ObjectKind::Tree ==> {
                        &&& #[trigger] tree_hash_ok(self@, k)
                        &&& store@.contains_key(self@[k].hash)
                    },
            decreases j,
        {
            j = j - 1;
            if self.nodes[j].kind == ObjectKind::Tree {
                let ghost t = self@;
                let ghost sv = store@;
                let entries = self.entries_of(j);
                let text = tree_object(&entries, self.nodes[j].path.as_str());
                let h = store.put(text);
                self.set_hash(j, h);
                proof {
                    lemma_write_step(t0, t, self@, j as int, h@, sv, store@);
                }
                assert forall|k: int|
                    j <= k < self@.len() && self@[k].kind == ObjectKind::Tree implies {
                        &&& #[trigger] tree_hash_ok(self@, k)
                        &&& store@.contains_key(self@[k].hash)
                    } by {}
            } else {
                assert(self@[j as int].kind != ObjectKind::Tree);
                assert forall|k: int|
                    j <= k < self@.len() && self@[k].kind == ObjectKind::Tree implies {
                        &&& #[trigger] tree_hash_ok(self@, k)
                        &&& store@.contains_key(self@[k].hash)
                    } by {
                    if k == j {
                        assert(false);
                    }
                }
            }
        }
    }
}

/// Every node but the root has a parent before it.
pub proof fn lemma_wf_parent(t: Seq<NodeView>, k: int)
    requires
        tree_wf(t),
        0 < k < t.len(),
    ensures
        t[k].parent matches Some(p) && p < k,
{
    reveal(parents_ok);
    reveal(tree_wf);
    assert(parents_ok(t));
}

impl Tree {
    /// The first child of node `at` named `name`.
    pub fn find_named_child(&self, at: usize, name: &String) -> (r: Option<usize>)
        requires
            at < self@.len(),
            tree_wf(self@),
        ensures
            r == first_named(self@, self@[at as int].children, name@),
            r matches Some(c) ==> at < c < self@.len(),
    {
        self.find_child(at, name)
    }
}

/// Every node but the root is listed among its parent's children.
pub proof fn lemma_wf_child_listed(t: Seq<NodeView>, k: int)
    requires
        tree_wf(t),
        0 < k < t.len(),
    ensures
        t[k].parent matches Some(p) && p < k && t[p as int].children.contains(k as usize),
{
    reveal(parents_ok);
    reveal(tree_wf);
    assert(parents_ok(t));
}

/// Loading the same commit from the same store twice gives the same tree,
/// node for node: what `Tree::load` returns is determined by the two alone.
pub proof fn law_load_twice(
    store: Map<Seq<char>, Seq<char>>,
    commit: Seq<char>,
    first: Seq<NodeView>,
    second: Seq<NodeView>,
)
    requires
        first == loaded_tree(store, commit),
        second == loaded_tree(store, commit),
    ensures
        first.len() == second.len(),
        forall|k: int| 0 <= k < first.len() ==> (#[trigger] first[k]).hash == second[k].hash,
        first == second,
{
}

/// All strict ancestors of node `k` are directories.
pub open spec fn shown(t: Seq<NodeView>, k: int) -> bool
    decreases k,
{
    if k <= 0 {
        true
    } else if k >= t.len() {
        false
    } else {
        match t[k].parent {
            Some(p) => p < k && t[p as int].kind == ObjectKind::Tree && shown(t, p as int),
            None => false,
        }
    }
}

/// The first node whose path is `path`.
pub open spec fn first_with_path(t: Seq<NodeView>, n: int, path: Seq<char>) -> Option<usize>
    decreases n,
{
    if n <= 0 {
        None
    } else {
        match first_with_path(t, n - 1, path) {
            Some(k) => Some(k),
            None => if t[n - 1].path == path {
                Some((n - 1) as usize)
            } else {
                None
            },
        }
    }
}

impl Tree {
    /// The files of the tree: blob nodes that only directories lead to, in
    /// node order.
    pub fn tracked_files(&self) -> (r: Vec<usize>)
        requires
            tree_wf(self@),
        ensures
            forall|i: int| 0 <= i < r@.len() ==> (#[trigger] r@[i]) < self@.len()
                && self@[r@[i] as int].kind == ObjectKind::Blob && shown(self@, r@[i] as int),
            forall|i: int, j: int| 0 <= i < j < r@.len() ==> #[trigger] r@[i] < #[trigger] r@[j],
            forall|k: int|
                0 <= k < self@.len() && self@[k].kind == ObjectKind::Blob && shown(self@, k) ==> r@.contains(
                    k as usize,
                ),
    {
        let ghost t = self@;
        proof {
            lemma_wf_len(t);
        }
        let n = self.nodes.len();
        let mut flags: Vec<bool> = Vec::new();
        let mut r: Vec<usize> = Vec::new();
        let mut k: usize = 0;
        while k < n
            invariant
                t == self@,
                tree_wf(t),
                n == t.len(),
                k <= n,
                flags@.len() == k,
                forall|j: int| 0 <= j < k ==> #[trigger] flags@[j] == shown(t, j),
                forall|i: int| 0 <= i < r@.len() ==> (#[trigger] r@[i]) < k
                    && t[r@[i] as int].kind == ObjectKind::Blob && shown(t, r@[i] as int),
                forall|i: int, j: int| 0 <= i < j < r@.len() ==> #[trigger] r@[i] < #[trigger] r@[j],
                forall|j: int| 0 <= j < k && t[j].kind == ObjectKind::Blob && shown(t, j) ==> r@.contains(j as usize),
            decreases n - k,
        {
            let mut f = true;
            if k > 0 {
                proof {
                    lemma_wf_parent(t, k as int);
                }
                let p = self.nodes[k].parent.unwrap();
                f = flags[p] && self.nodes[p].kind == ObjectKind::Tree;
            }
            assert(f == shown(t, k as int));
            flags.push(f);
            let ghost before = r@;
            if f && self.nodes[k].kind == ObjectKind::Blob {
                r.push(k);
                assert forall|j: int| 0 <= j < k + 1 && t[j].kind == ObjectKind::Blob && shown(t, j) implies r@.contains(j as usize) by {
                    if j < k {
                        let i = choose|i: int| 0 <= i < before.len() && before[i] == j as usize;
                        assert(r@[i] == j as usize);
                    } else {
                        assert(r@[before.len() as int] == k);
                    }
                }
            }
            k = k + 1;
        }
        r
    }

    /// The first node whose path is `path`.
    pub fn node_with_path(&self, path: &String) -> (r: Option<usize>)
        ensures
            r == first_with_path(self@, self@.len() as int, path@),
            r matches Some(k) ==> k < self@.len(),
    {
        let ghost t = self@;
        let mut found: Option<usize> = None;
        let mut k: usize = 0;
        while k < self.nodes.len()
            invariant
                t == self@,
                k <= t.len(),
                found == first_with_path(t, k as int, path@),
                found matches Some(j) ==> j < k,
            decreases t.len() - k,
        {
            if found.is_none() && self.nodes[k].path == *path {
                found = Some(k);
            }
            k = k + 1;
        }
        found
    }
}

/// Every child listed is a node after its parent.
pub proof fn lemma_wf_child_bound(t: Seq<NodeView>, k: int, j: int)
    requires
        tree_wf(t),
        0 <= k < t.len(),
        0 <= j < t[k].children.len(),
    ensures
        k < t[k].children[j] < t.len(),
{
    reveal(tree_wf);
    reveal(children_ok);
}

} // verus!
