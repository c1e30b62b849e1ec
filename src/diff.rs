//! Comparing stored files with live content, and one commit's tree with
//! another's.

use vstd::prelude::*;
use crate::digest::sha1_hex;
use crate::index::{blob_path, is_blob_path, lemma_blob_unique};
use crate::object::{ObjectKind, blob_object, blob_text, is_blob_of, parse_blob};
use crate::store::ObjectStore;
use crate::tree::{NodeView, Tree, first_named, tree_wf};
use crate::digest::digest_of;

verus! {

/// Which side of a line diff a line belongs to.
#[derive(Clone, Copy, Debug, PartialEq, Eq, Structural)]
pub enum LineTag {
    /// Only in the old text.
    Delete,
    /// Only in the new text.
    Insert,
    /// In both.
    Equal,
}

/// One line of a line diff, with its line ending.
#[derive(Debug)]
pub struct LineChange {
    pub tag: LineTag,
    pub text: String,
}

impl View for LineChange {
    type V = (LineTag, Seq<char>);

    open spec fn view(&self) -> (LineTag, Seq<char>) {
        (self.tag, self.text@)
    }
}

/// The line diff from an old text to a new one.
pub uninterp spec fn line_changes_of(old: Seq<char>, new: Seq<char>) -> Seq<(LineTag, Seq<char>)>;

/// Relies on `similar::TextDiff::from_lines` and `iter_all_changes`: every
/// line of the two texts, tagged as deleted, inserted or equal, in order.
#[verifier::external_body]
fn line_diff(old: &str, new: &str) -> (r: Vec<LineChange>)
    ensures
        r@.map_values(|c: LineChange| c@) == line_changes_of(old@, new@),
{
    let diff = similar::TextDiff::from_lines(old, new);
    diff.iter_all_changes().map(|c| LineChange {
        tag: match c.tag() {
            similar::ChangeTag::Delete => LineTag::Delete,
            similar::ChangeTag::Insert => LineTag::Insert,
            similar::ChangeTag::Equal => LineTag::Equal,
        },
        text: c.value().to_string(),
    }).collect()
}

/// How a tracked file compares with its stored blob.
#[derive(Debug)]
pub enum FileChange {
    /// The live file is gone.
    Deleted,
    /// The stored object is missing or is no blob.
    Unreadable,
    /// The live content hashes to the stored digest.
    Unchanged,
    /// The live content differs; the lines from stored to live.
    Modified(Vec<LineChange>),
}

/// Live content `live` of the blob stored under `h` hashes back to `h`.
pub open spec fn unchanged(store: Map<Seq<char>, Seq<char>>, h: Seq<char>, live: Seq<char>) -> bool {
    exists|c: Seq<char>, p: Seq<char>| is_blob_of(store[h], c, p) && sha1_hex(blob_text(live, p)) == h
}

/// Compares the live content of a tracked file (none when the file is
/// gone) with the blob stored under `h`: the live content is hashed as a
/// blob at the stored path and compared with `h`; when it differs, the
/// stored content is diffed line by line against it.
pub fn diff_file(store: &ObjectStore, h: &String, live: Option<String>) -> (r: FileChange)
    requires
        store.wf(),
    ensures
        live is None ==> r is Deleted,
        live matches Some(l) ==> {
            &&& (!store@.contains_key(h@) || blob_path(store@[h@]) is None) ==> r is Unreadable
            &&& store@.contains_key(h@) && unchanged(store@, h@, l@) ==> r is Unchanged
            &&& forall|c: Seq<char>, p: Seq<char>|
                store@.contains_key(h@) && is_blob_of(store@[h@], c, p) ==> {
                    &&& (sha1_hex(blob_text(l@, p)) == h@ ==> r is Unchanged)
                    &&& (sha1_hex(blob_text(l@, p)) != h@ ==> (r matches FileChange::Modified(ch)
                        && ch@.map_values(|x: LineChange| x@) == line_changes_of(c, l@)))
                }
        },
{
    let l = match live {
        None => {
            return FileChange::Deleted;
        },
        Some(l) => l,
    };
    let stored = match store.get(h) {
        Ok(t) => t,
        Err(_) => {
            return FileChange::Unreadable;
        },
    };
    match parse_blob(stored.as_str()) {
        None => {
            assert(blob_path(stored@) is None) by {
                if exists|p: Seq<char>| is_blob_path(stored@, p) {
                    let p = choose|p: Seq<char>| is_blob_path(stored@, p);
                    let c = choose|c: Seq<char>| is_blob_of(stored@, c, p);
                }
            }
            FileChange::Unreadable
        },
        Some((c, p)) => {
            let text = blob_object(l.as_str(), p.as_str());
            let d = digest_of(text.as_str());
            proof {
                assert(is_blob_path(stored@, p@));
                assert forall|c2: Seq<char>, p2: Seq<char>| is_blob_of(stored@, c2, p2) implies c2 == c@ && p2 == p@ by {
                    lemma_blob_unique(stored@, c2, p2, c@, p@);
                }
            }
            if d == *h {
                FileChange::Unchanged
            } else {
                FileChange::Modified(line_diff(c.as_str(), l.as_str()))
            }
        },
    }
}

/// Live content equal to a stored blob's content hashes back to its digest,
/// so a file without local modifications shows as unchanged.
pub proof fn law_unmodified_is_unchanged(store: &ObjectStore, h: Seq<char>, c: Seq<char>, p: Seq<char>)
    requires
        store.wf(),
        store@.contains_key(h),
        is_blob_of(store@[h], c, p),
    ensures
        unchanged(store@, h, c),
{
    store.lemma_addressed(h);
}

/// The node of `tb` that node `k` of `ta` is compared with: roots match,
/// and a child of a matched tree node matches the first child of the same
/// name under the matching node.
pub open spec fn match_of(ta: Seq<NodeView>, tb: Seq<NodeView>, k: int) -> Option<usize>
    decreases k,
{
    if k <= 0 {
        Some(0usize)
    } else if k >= ta.len() {
        None
    } else {
        match ta[k].parent {
            Some(p) => if p < k && ta[p as int].kind == ObjectKind::Tree {
                match match_of(ta, tb, p as int) {
                    Some(q) => if q < tb.len() {
                        first_named(tb, tb[q as int].children, ta[k].name)
                    } else {
                        None
                    },
                    None => None,
                }
            } else {
                None
            },
            None => None,
        }
    }
}

/// What is reported for node `k` of `ta`: a file inside a compared
/// directory is added when nothing matches it (`Some(None)`), modified when
/// its match has another digest (`Some(Some(m))`), and otherwise nothing.
pub open spec fn reported(ta: Seq<NodeView>, tb: Seq<NodeView>, k: int) -> Option<Option<usize>> {
    if 0 < k < ta.len() && ta[k].kind != ObjectKind::Tree && ta[k].parent is Some && ta[k].parent.unwrap() < k
        && ta[ta[k].parent.unwrap() as int].kind == ObjectKind::Tree && match_of(
        ta,
        tb,
        ta[k].parent.unwrap() as int,
    ) is Some {
        match match_of(ta, tb, k) {
            None => Some(None),
            Some(m) => if m < tb.len() && ta[k].hash != tb[m as int].hash {
                Some(Some(m))
            } else {
                None
            },
        }
    } else {
        None
    }
}

/// The reports for the first `n` nodes of `ta`, in node order.
pub open spec fn report_upto(ta: Seq<NodeView>, tb: Seq<NodeView>, n: int) -> Seq<(int, Option<usize>)>
    decreases n,
{
    if n <= 0 {
        Seq::empty()
    } else {
        let prev = report_upto(ta, tb, n - 1);
        match reported(ta, tb, n - 1) {
            Some(x) => prev.push((n - 1, x)),
            None => prev,
        }
    }
}

/// The line diff between two stored blobs, empty when either is unreadable.
pub open spec fn stored_lines(store: Map<Seq<char>, Seq<char>>, old: Seq<char>, new: Seq<char>) -> Seq<
    (LineTag, Seq<char>),
> {
    if store.contains_key(old) && store.contains_key(new) && (exists|c: Seq<char>|
        is_blob_content(store[old], c)) && (exists|c: Seq<char>| is_blob_content(store[new], c)) {
        line_changes_of(
            choose|c: Seq<char>| is_blob_content(store[old], c),
            choose|c: Seq<char>| is_blob_content(store[new], c),
        )
    } else {
        Seq::empty()
    }
}

/// `c` is the content recorded in the blob `t`.
pub open spec fn is_blob_content(t: Seq<char>, c: Seq<char>) -> bool {
    exists|p: Seq<char>| is_blob_of(t, c, p)
}

/// A file that differs between two commits.
#[derive(Debug)]
pub enum EntryChange {
    /// Only in the first commit.
    Added,
    /// In both, with another digest; the lines from the second to the first.
    Modified(Vec<LineChange>),
}

/// One reported file of a commit-to-commit diff.
#[derive(Debug)]
pub struct PathChange {
    pub path: String,
    pub change: EntryChange,
}

/// The content of the blob stored under `h`, if it is one.
fn stored_content(store: &ObjectStore, h: &String) -> (r: Option<String>)
    requires
        store.wf(),
    ensures
        r matches Some(c) ==> store@.contains_key(h@) && is_blob_content(store@[h@], c@),
        r is None ==> !(store@.contains_key(h@) && exists|c: Seq<char>| is_blob_content(store@[h@], c)),
{
    match store.get(h) {
        Ok(t) => match parse_blob(t.as_str()) {
            Some((c, _p)) => {
                assert(is_blob_content(t@, c@));
                Some(c)
            },
            None => {
                assert(!exists|c: Seq<char>| is_blob_content(t@, c)) by {
                    if exists|c: Seq<char>| is_blob_content(t@, c) {
                        let c = choose|c: Seq<char>| is_blob_content(t@, c);
                        let p = choose|p: Seq<char>| is_blob_of(t@, c, p);
                    }
                }
                None
            },
        },
        Err(_) => None,
    }
}

proof fn lemma_content_unique(t: Seq<char>, c: Seq<char>, p: Seq<char>)
    requires
        is_blob_of(t, c, p),
    ensures
        (choose|c2: Seq<char>| is_blob_content(t, c2)) == c,
{
    assert(is_blob_content(t, c));
    let c2 = choose|c2: Seq<char>| is_blob_content(t, c2);
    let p2 = choose|p2: Seq<char>| is_blob_of(t, c2, p2);
    lemma_blob_unique(t, c, p, c2, p2);
}

/// The lines between two stored blobs, from `old` to `new`.
fn lines_between(store: &ObjectStore, old: &String, new: &String) -> (r: Vec<LineChange>)
    requires
        store.wf(),
    ensures
        r@.map_values(|x: LineChange| x@) == stored_lines(store@, old@, new@),
{
    match (stored_content(store, old), stored_content(store, new)) {
        (Some(a), Some(b)) => {
            proof {
                let pa = choose|p: Seq<char>| is_blob_of(store@[old@], a@, p);
                let pb = choose|p: Seq<char>| is_blob_of(store@[new@], b@, p);
                assert(is_blob_content(store@[old@], a@));
                assert(is_blob_content(store@[new@], b@));
                lemma_content_unique(store@[old@], a@, pa);
                lemma_content_unique(store@[new@], b@, pb);
            }
            line_diff(a.as_str(), b.as_str())
        },
        _ => {
            let r: Vec<LineChange> = Vec::new();
            assert(r@.map_values(|x: LineChange| x@) =~= Seq::<(LineTag, Seq<char>)>::empty());
            r
        },
    }
}

/// Compares the tree of one commit (`ta`) with another's (`tb`), walking
/// both from their roots and matching children by name. Files only in `ta`
/// are added; files in both with other digests are modified, with the lines
/// from `tb`'s content to `ta`'s. Directories are not reported.
pub fn diff_trees(store: &ObjectStore, ta: &Tree, tb: &Tree) -> (r: Vec<PathChange>)
    requires
        store.wf(),
        tree_wf(ta@),
        tree_wf(tb@),
    ensures
        r@.len() == report_upto(ta@, tb@, ta@.len() as int).len(),
        forall|i: int|
            0 <= i < r@.len() ==> {
                let (k, m) = #[trigger] report_upto(ta@, tb@, ta@.len() as int)[i];
                &&& 0 <= k < ta@.len()
                &&& r@[i].path@ == ta@[k].path
                &&& (m is None ==> r@[i].change is Added)
                &&& (m matches Some(mm) ==> (r@[i].change matches EntryChange::Modified(ls) && mm < tb@.len()
                    && ls@.map_values(|x: LineChange| x@) == stored_lines(store@, tb@[mm as int].hash, ta@[k].hash)))
            },
{
    let ghost a = ta@;
    let ghost b = tb@;
    proof {
        crate::tree::lemma_wf_len(a);
        crate::tree::lemma_wf_len(b);
    }
    let n = ta.len();
    let mut matched: Vec<Option<usize>> = Vec::new();
    let mut r: Vec<PathChange> = Vec::new();
    let mut k: usize = 0;
    while k < n
        invariant
            a == ta@,
            b == tb@,
            n == a.len(),
            b.len() > 0,
            tree_wf(a),
            tree_wf(b),
            store.wf(),
            k <= n,
            matched@.len() == k,
            forall|j: int| 0 <= j < k ==> #[trigger] matched@[j] == match_of(a, b, j),
            forall|j: int| 0 <= j < k ==> ((#[trigger] matched@[j]) matches Some(q) ==> q < b.len()),
            r@.len() == report_upto(a, b, k as int).len(),
            forall|i: int|
                0 <= i < r@.len() ==> {
                    let (kk, m) = #[trigger] report_upto(a, b, k as int)[i];
                    &&& 0 <= kk < a.len()
                    &&& r@[i].path@ == a[kk].path
                    &&& (m is None ==> r@[i].change is Added)
                    &&& (m matches Some(mm) ==> (r@[i].change matches EntryChange::Modified(ls) && mm < b.len()
                        && ls@.map_values(|x: LineChange| x@) == stored_lines(store@, b[mm as int].hash, a[kk].hash)))
                },
        decreases n - k,
    {
        let ghost before = r@;
        let node = ta.node(k);
        let mut this: Option<usize> = None;
        if k == 0 {
            this = Some(0);
        } else {
            proof {
                crate::tree::lemma_wf_parent(a, k as int);
            }
            let p = node.parent.unwrap();
            if ta.node(p).kind == ObjectKind::Tree {
                match matched[p] {
                    Some(q) => {
                        this = tb.find_named_child(q, &node.name);
                        if node.kind != ObjectKind::Tree {
                            match this {
                                None => {
                                    r.push(PathChange { path: node.path.clone(), change: EntryChange::Added });
                                },
                                Some(m) => {
                                    if !(tb.node(m).hash == node.hash) {
                                        let ls = lines_between(store, &tb.node(m).hash, &node.hash);
                                        r.push(PathChange { path: node.path.clone(), change: EntryChange::Modified(ls) });
                                    }
                                },
                            }
                        }
                    },
                    None => {},
                }
            }
        }
        matched.push(this);
        proof {
            assert(matched@[k as int] == match_of(a, b, k as int));
            let rep = report_upto(a, b, k + 1);
            assert forall|i: int| 0 <= i < r@.len() implies {
                let (kk, m) = #[trigger] report_upto(a, b, k + 1)[i];
                &&& 0 <= kk < a.len()
                &&& r@[i].path@ == a[kk].path
                &&& (m is None ==> r@[i].change is Added)
                &&& (m matches Some(mm) ==> (r@[i].change matches EntryChange::Modified(ls) && mm < b.len()
                    && ls@.map_values(|x: LineChange| x@) == stored_lines(store@, b[mm as int].hash, a[kk].hash)))
            } by {
                if i < before.len() {
                    assert(r@[i] == before[i]);
                    assert(rep[i] == report_upto(a, b, k as int)[i]);
                }
            }
        }
        k = k + 1;
    }
    r
}

/// The first of the nodes `cs` whose path is `path`.
pub open spec fn first_at_path(t: Seq<NodeView>, cs: Seq<usize>, path: Seq<char>) -> Option<usize>
    decreases cs.len(),
{
    if cs.len() == 0 {
        None
    } else {
        match first_at_path(t, cs.drop_last(), path) {
            Some(c) => Some(c),
            None => if t[cs.last() as int].path == path {
                Some(cs.last())
            } else {
                None
            },
        }
    }
}

/// How an entry of a working directory stands against the tree.
#[derive(Debug, PartialEq, Eq, Structural)]
pub enum EntryStatus {
    /// No node of the directory has its path.
    Untracked,
    /// A directory the tree knows: compare its entries with this node's.
    Descend(usize),
    /// A tracked file whose live content differs from its blob.
    Modified,
    /// A tracked file that is unchanged, gone, or whose blob is unreadable.
    Clean,
}

/// Classifies the working-directory entry at `path` (a directory when
/// `is_dir`; a file with content `live` otherwise, none when unreadable)
/// against the children of directory node `dir`.
pub fn classify_entry(
    store: &ObjectStore,
    tree: &Tree,
    dir: usize,
    path: &String,
    is_dir: bool,
    live: Option<String>,
) -> (r: EntryStatus)
    requires
        store.wf(),
        tree_wf(tree@),
        dir < tree@.len(),
    ensures
        first_at_path(tree@, tree@[dir as int].children, path@) is None ==> r is Untracked,
        first_at_path(tree@, tree@[dir as int].children, path@) matches Some(k) ==> {
            &&& is_dir ==> r == EntryStatus::Descend(k)
            &&& !is_dir ==> (r is Modified || r is Clean)
            &&& (!is_dir && live is None) ==> r is Clean
            &&& !is_dir ==> (live matches Some(l) ==> {
                let h = tree@[k as int].hash;
                &&& (!store@.contains_key(h) || blob_path(store@[h]) is None) ==> r is Clean
                &&& forall|c: Seq<char>, p: Seq<char>|
                    store@.contains_key(h) && is_blob_of(store@[h], c, p) ==> (r is Modified
                        <==> sha1_hex(blob_text(l@, p)) != h)
            })
        },
{
    let ghost t = tree@;
    let ghost cs = t[dir as int].children;
    let kids = &tree.node(dir).children;
    let mut found: Option<usize> = None;
    let mut j: usize = 0;
    while j < kids.len()
        invariant
            t == tree@,
            tree_wf(t),
            dir < t.len(),
            kids@ == cs,
            cs == t[dir as int].children,
            j <= cs.len(),
            found == first_at_path(t, cs.take(j as int), path@),
            found matches Some(c) ==> c < t.len(),
        decreases cs.len() - j,
    {
        assert(cs.take(j + 1).drop_last() =~= cs.take(j as int));
        assert(cs.take(j + 1).last() == cs[j as int]);
        let c = kids[j];
        proof {
            crate::tree::lemma_wf_child_bound(t, dir as int, j as int);
        }
        if found.is_none() && tree.node(c).path == *path {
            found = Some(c);
        }
        j = j + 1;
    }
    assert(cs.take(j as int) =~= cs);
    match found {
        None => EntryStatus::Untracked,
        Some(k) => {
            if is_dir {
                EntryStatus::Descend(k)
            } else {
                match diff_file(store, &tree.node(k).hash, live) {
                    FileChange::Modified(_) => EntryStatus::Modified,
                    _ => EntryStatus::Clean,
                }
            }
        },
    }
}

/// No two children of a node share a name.
pub open spec fn names_unique(t: Seq<NodeView>) -> bool {
    forall|k: int, i: int, j: int|
        0 <= k < t.len() && 0 <= i < t[k].children.len() && 0 <= j < t[k].children.len() && i != j
            ==> t[#[trigger] t[k].children[i] as int].name != t[#[trigger] t[k].children[j] as int].name
}

proof fn lemma_first_named_is(t: Seq<NodeView>, cs: Seq<usize>, idx: int)
    requires
        0 <= idx < cs.len(),
        forall|i: int, j: int|
            0 <= i < cs.len() && 0 <= j < cs.len() && i != j ==> t[#[trigger] cs[i] as int].name
                != t[#[trigger] cs[j] as int].name,
    ensures
        first_named(t, cs, t[cs[idx] as int].name) == Some(cs[idx]),
    decreases cs.len(),
{
    let name = t[cs[idx] as int].name;
    let init = cs.drop_last();
    if idx < cs.len() - 1 {
        assert(init[idx] == cs[idx]);
        lemma_first_named_is(t, init, idx);
    } else {
        lemma_first_named_none(t, init, name);
    }
}

proof fn lemma_first_named_none(t: Seq<NodeView>, cs: Seq<usize>, name: Seq<char>)
    requires
        forall|i: int| 0 <= i < cs.len() ==> t[#[trigger] cs[i] as int].name != name,
    ensures
        first_named(t, cs, name) is None,
    decreases cs.len(),
{
    if cs.len() > 0 {
        let init = cs.drop_last();
        assert forall|i: int| 0 <= i < init.len() implies t[#[trigger] init[i] as int].name != name by {
            assert(init[i] == cs[i]);
        }
        lemma_first_named_none(t, init, name);
        assert(t[cs[cs.len() - 1] as int].name != name);
    }
}

proof fn lemma_match_self(t: Seq<NodeView>, k: int)
    requires
        tree_wf(t),
        names_unique(t),
        0 <= k < t.len(),
    ensures
        match_of(t, t, k) matches Some(q) ==> q == k,
    decreases k,
{
    crate::tree::lemma_wf_len(t);
    if k > 0 {
        crate::tree::lemma_wf_parent(t, k);
        let p = t[k].parent.unwrap() as int;
        lemma_match_self(t, p);
        if t[p].kind == ObjectKind::Tree && match_of(t, t, p) is Some {
            crate::tree::lemma_wf_child_listed(t, k);
            let cs = t[p].children;
            let idx = choose|idx: int| 0 <= idx < cs.len() && cs[idx] == k as usize;
            assert forall|i: int, j: int|
                0 <= i < cs.len() && 0 <= j < cs.len() && i != j implies t[#[trigger] cs[i] as int].name
                    != t[#[trigger] cs[j] as int].name by {
                assert(t[p].children[i] == cs[i]);
            }
            lemma_first_named_is(t, cs, idx);
        }
    }
}

proof fn lemma_report_self_empty(t: Seq<NodeView>, n: int)
    requires
        tree_wf(t),
        names_unique(t),
        n <= t.len(),
    ensures
        report_upto(t, t, n).len() == 0,
    decreases n,
{
    crate::tree::lemma_wf_len(t);
    if n > 0 {
        lemma_report_self_empty(t, n - 1);
        let k = n - 1;
        if 0 < k {
            crate::tree::lemma_wf_parent(t, k);
            let p = t[k].parent.unwrap() as int;
            if t[p].kind == ObjectKind::Tree && match_of(t, t, p) is Some {
                lemma_match_self(t, p);
                crate::tree::lemma_wf_child_listed(t, k);
                let cs = t[p].children;
                let idx = choose|idx: int| 0 <= idx < cs.len() && cs[idx] == k as usize;
                assert forall|i: int, j: int|
                    0 <= i < cs.len() && 0 <= j < cs.len() && i != j implies t[#[trigger] cs[i] as int].name
                        != t[#[trigger] cs[j] as int].name by {
                    assert(t[p].children[i] == cs[i]);
                }
                lemma_first_named_is(t, cs, idx);
                assert(match_of(t, t, k) == Some(k as usize));
            }
        }
        assert(reported(t, t, k) is None);
    }
}

/// Comparing a commit's tree with itself reports no file, when no
/// directory holds two entries of one name.
pub proof fn law_diff_with_itself(t: Seq<NodeView>)
    requires
        tree_wf(t),
        names_unique(t),
    ensures
        report_upto(t, t, t.len() as int).len() == 0,
{
    lemma_report_self_empty(t, t.len() as int);
}

} // verus!
