//! The three kinds of stored objects and their text forms.

use vstd::prelude::*;
use vstd::string::StringExecFns;
use crate::text::{split, has_char, chars_of, slice_of, split_bounds};

verus! {

broadcast use vstd::string::group_string_axioms;

/// What a stored object is.
#[derive(Clone, Copy, Debug, PartialEq, Eq, Structural)]
pub enum ObjectKind {
    Blob,
    Tree,
    Commit,
}

pub open spec fn nl2() -> Seq<char> {
    seq!['\n', '\n']
}

/// The word that names a kind in object texts.
pub open spec fn kind_word(k: ObjectKind) -> Seq<char> {
    match k {
        ObjectKind::Blob => seq!['b', 'l', 'o', 'b'],
        ObjectKind::Tree => seq!['t', 'r', 'e', 'e'],
        ObjectKind::Commit => seq!['c', 'o', 'm', 'm', 'i', 't'],
    }
}

/// The kind that a word names, if any.
pub open spec fn kind_of_word(w: Seq<char>) -> Option<ObjectKind> {
    if w == kind_word(ObjectKind::Blob) {
        Some(ObjectKind::Blob)
    } else if w == kind_word(ObjectKind::Tree) {
        Some(ObjectKind::Tree)
    } else if w == kind_word(ObjectKind::Commit) {
        Some(ObjectKind::Commit)
    } else {
        None
    }
}

/// A blob: the file's content, then the path it was read from, then its kind.
pub open spec fn blob_text(content: Seq<char>, path: Seq<char>) -> Seq<char> {
    content + nl2() + path + nl2() + kind_word(ObjectKind::Blob)
}

/// One line of a tree object: `<kind> <hash> <path>` and a blank line.
pub open spec fn entry_text(e: (ObjectKind, Seq<char>, Seq<char>)) -> Seq<char> {
    kind_word(e.0) + seq![' '] + e.1 + seq![' '] + e.2 + nl2()
}

pub open spec fn entries_text(es: Seq<(ObjectKind, Seq<char>, Seq<char>)>) -> Seq<char>
    decreases es.len(),
{
    if es.len() == 0 {
        Seq::empty()
    } else {
        entries_text(es.drop_last()) + entry_text(es.last())
    }
}

/// A tree: its entries in order, then its own path, then its kind.
pub open spec fn tree_text(es: Seq<(ObjectKind, Seq<char>, Seq<char>)>, path: Seq<char>) -> Seq<
    char,
> {
    entries_text(es) + path + nl2() + kind_word(ObjectKind::Tree)
}

pub open spec fn tree_prefix() -> Seq<char> {
    seq!['t', 'r', 'e', 'e', ' ']
}

pub open spec fn parent_prefix() -> Seq<char> {
    seq!['p', 'a', 'r', 'e', 'n', 't', ' ']
}

/// A commit: its tree, its parent (empty for the first commit) and its message.
pub open spec fn commit_text(tree: Seq<char>, parent: Seq<char>, message: Seq<char>) -> Seq<char> {
    tree_prefix() + tree + seq!['\n'] + parent_prefix() + parent + nl2() + message + nl2()
        + kind_word(ObjectKind::Commit)
}

/// One entry of a tree object.
#[derive(Debug)]
pub struct TreeEntry {
    pub kind: ObjectKind,
    pub hash: String,
    pub path: String,
}

impl View for TreeEntry {
    type V = (ObjectKind, Seq<char>, Seq<char>);

    open spec fn view(&self) -> Self::V {
        (self.kind, self.hash@, self.path@)
    }
}

/// The word that names `k`.
pub fn kind_name(k: ObjectKind) -> (r: &'static str)
    ensures
        r@ == kind_word(k),
{
    match k {
        ObjectKind::Blob => {
            proof {
                reveal_strlit("blob");
            }
            "blob"
        },
        ObjectKind::Tree => {
            proof {
                reveal_strlit("tree");
            }
            "tree"
        },
        ObjectKind::Commit => {
            proof {
                reveal_strlit("commit");
            }
            "commit"
        },
    }
}

/// The text of a blob holding `content`, read from `path`.
pub fn blob_object(content: &str, path: &str) -> (r: String)
    ensures
        r@ == blob_text(content@, path@),
{
    let mut r = String::from_str(content);
    let sep = "\n\n";
    proof {
        reveal_strlit("\n\n");
    }
    r.append(sep);
    r.append(path);
    r.append(sep);
    r.append(kind_name(ObjectKind::Blob));
    r
}

/// The text of a tree with these entries, at `path`.
pub fn tree_object(entries: &Vec<TreeEntry>, path: &str) -> (r: String)
    ensures
        r@ == tree_text(entries@.map_values(|e: TreeEntry| e@), path@),
{
    let ghost es = entries@.map_values(|e: TreeEntry| e@);
    let mut r = String::new();
    let sep = "\n\n";
    let space = " ";
    proof {
        reveal_strlit("\n\n");
        reveal_strlit(" ");
    }
    let mut i: usize = 0;
    while i < entries.len()
        invariant
            i <= entries.len(),
            es == entries@.map_values(|e: TreeEntry| e@),
            sep@ == nl2(),
            space@ == seq![' '],
            r@ == entries_text(es.take(i as int)),
        decreases entries.len() - i,
    {
        let e = &entries[i];
        r.append(kind_name(e.kind));
        r.append(space);
        r.append(e.hash.as_str());
        r.append(space);
        r.append(e.path.as_str());
        r.append(sep);
        assert(es.take(i + 1).drop_last() =~= es.take(i as int));
        i = i + 1;
    }
    assert(es.take(i as int) =~= es);
    r.append(path);
    r.append(sep);
    r.append(kind_name(ObjectKind::Tree));
    r
}

/// The text of a commit of `tree` on top of `parent`, with `message`.
pub fn commit_object(tree: &str, parent: &str, message: &str) -> (r: String)
    ensures
        r@ == commit_text(tree@, parent@, message@),
{
    let sep = "\n\n";
    let nl = "\n";
    let tp = "tree ";
    let pp = "parent ";
    proof {
        reveal_strlit("\n\n");
        reveal_strlit("\n");
        reveal_strlit("tree ");
        reveal_strlit("parent ");
    }
    let mut r = String::from_str(tp);
    r.append(tree);
    r.append(nl);
    r.append(pp);
    r.append(parent);
    r.append(sep);
    r.append(message);
    r.append(sep);
    r.append(kind_name(ObjectKind::Commit));
    r
}

/// `t` is the blob of `content` read from `path`, a path without line breaks.
pub open spec fn is_blob_of(t: Seq<char>, content: Seq<char>, path: Seq<char>) -> bool {
    t == blob_text(content, path) && !has_char(path, '\n')
}

/// The content and path stored in a blob's text, if it is one.
pub fn parse_blob(text: &str) -> (r: Option<(String, String)>)
    ensures
        r matches Some((c, p)) ==> is_blob_of(text@, c@, p@),
        r is None ==> forall|c: Seq<char>, p: Seq<char>| !is_blob_of(text@, c, p),
{
    let t = chars_of(text);
    let n = t.len();
    if n < 8 || t[n - 6] != '\n' || t[n - 5] != '\n' || t[n - 4] != 'b' || t[n - 3] != 'l'
        || t[n - 2] != 'o' || t[n - 1] != 'b' {
        return None;
    }
    let m = n - 6;
    let mut j: usize = m;
    while j > 0 && t[j - 1] != '\n'
        invariant
            j <= m < n,
            n == t@.len(),
            forall|k: int| j <= k < m ==> t@[k] != '\n',
        decreases j,
    {
        j = j - 1;
    }
    if j < 2 || t[j - 2] != '\n' {
        assert forall|c: Seq<char>, p: Seq<char>| !is_blob_of(text@, c, p) by {
            if is_blob_of(text@, c, p) {
                let q = c.len() + 1int;
                assert(t@[c.len() as int] == '\n');
                assert(t@[q] == '\n');
                assert forall|k: int| q < k < m implies t@[k] != '\n' by {
                    assert(t@[k] == p[k - q - 1]);
                }
                assert(j > q);
                assert(j - 1 == q);
            }
        }
        return None;
    }
    let c = slice_of(text, 0, j - 2);
    let p = slice_of(text, j, m);
    assert(!has_char(p@, '\n')) by {
        if has_char(p@, '\n') {
            let k = choose|k: int| 0 <= k < p@.len() && p@[k] == '\n';
            assert(t@[j + k] == '\n');
        }
    }
    assert(text@ =~= blob_text(c@, p@));
    Some((c, p))
}

/// The tree and parent named by a commit's first two lines, if it has them.
pub open spec fn commit_header(t: Seq<char>) -> Option<(Seq<char>, Seq<char>)> {
    let ls = split(t, '\n');
    if ls.len() >= 2 && ls[0].len() >= 5 && ls[0].take(5) == tree_prefix() && ls[1].len() >= 7
        && ls[1].take(7) == parent_prefix() {
        Some((ls[0].skip(5), ls[1].skip(7)))
    } else {
        None
    }
}

/// The tree and parent digests that a commit's text names.
pub fn parse_commit(text: &str) -> (r: Option<(String, String)>)
    ensures
        r matches Some((tr, pa)) ==> commit_header(text@) == Some((tr@, pa@)),
        r is None ==> commit_header(text@) is None,
{
    let t = chars_of(text);
    let lines = split_bounds(&t, '\n');
    if lines.len() < 2 {
        return None;
    }
    let (a0, b0) = lines[0];
    let (a1, b1) = lines[1];
    let ghost l0 = split(t@, '\n')[0];
    let ghost l1 = split(t@, '\n')[1];
    if b0 - a0 < 5 || t[a0] != 't' || t[a0 + 1] != 'r' || t[a0 + 2] != 'e' || t[a0 + 3] != 'e'
        || t[a0 + 4] != ' ' {
        assert(l0.len() < 5 || l0.take(5) != tree_prefix()) by {
            if l0.len() >= 5 && l0.take(5) == tree_prefix() {
                assert(l0[0] == t@[a0 as int]);
                assert(l0[1] == t@[a0 + 1]);
                assert(l0[2] == t@[a0 + 2]);
                assert(l0[3] == t@[a0 + 3]);
                assert(l0[4] == t@[a0 + 4]);
            }
        }
        return None;
    }
    if b1 - a1 < 7 || t[a1] != 'p' || t[a1 + 1] != 'a' || t[a1 + 2] != 'r' || t[a1 + 3] != 'e'
        || t[a1 + 4] != 'n' || t[a1 + 5] != 't' || t[a1 + 6] != ' ' {
        assert(l1.len() < 7 || l1.take(7) != parent_prefix()) by {
            if l1.len() >= 7 && l1.take(7) == parent_prefix() {
                assert(l1[0] == t@[a1 as int]);
                assert(l1[1] == t@[a1 + 1]);
                assert(l1[2] == t@[a1 + 2]);
                assert(l1[3] == t@[a1 + 3]);
                assert(l1[4] == t@[a1 + 4]);
                assert(l1[5] == t@[a1 + 5]);
                assert(l1[6] == t@[a1 + 6]);
            }
        }
        return None;
    }
    assert(l0.take(5) =~= tree_prefix());
    assert(l1.take(7) =~= parent_prefix());
    let tr = slice_of(text, a0 + 5, b0);
    let pa = slice_of(text, a1 + 7, b1);
    assert(tr@ =~= l0.skip(5));
    assert(pa@ =~= l1.skip(7));
    Some((tr, pa))
}

/// The entry that one line of a tree object describes: exactly three
/// space-separated fields, the first naming a blob or a tree.
pub open spec fn entry_of_line(l: Seq<char>) -> Option<(ObjectKind, Seq<char>, Seq<char>)> {
    let f = split(l, ' ');
    if f.len() == 3 && (kind_of_word(f[0]) == Some(ObjectKind::Blob) || kind_of_word(f[0]) == Some(
        ObjectKind::Tree,
    )) {
        Some((kind_of_word(f[0]).unwrap(), f[1], f[2]))
    } else {
        None
    }
}

pub open spec fn entries_of_lines(ls: Seq<Seq<char>>) -> Seq<(ObjectKind, Seq<char>, Seq<char>)>
    decreases ls.len(),
{
    if ls.len() == 0 {
        Seq::empty()
    } else {
        let prev = entries_of_lines(ls.drop_last());
        match entry_of_line(ls.last()) {
            Some(e) => prev.push(e),
            None => prev,
        }
    }
}

/// The entries that a tree object's lines describe, in order.
pub open spec fn tree_entries(t: Seq<char>) -> Seq<(ObjectKind, Seq<char>, Seq<char>)> {
    entries_of_lines(split(t, '\n'))
}

/// The kind of a tree entry named by `w`: a blob or a tree.
fn entry_kind(w: &String) -> (r: Option<ObjectKind>)
    ensures
        r == (if kind_of_word(w@) == Some(ObjectKind::Blob) || kind_of_word(w@) == Some(
            ObjectKind::Tree,
        ) {
            kind_of_word(w@)
        } else {
            None
        }),
{
    let blob = String::from_str(kind_name(ObjectKind::Blob));
    let tree = String::from_str(kind_name(ObjectKind::Tree));
    proof {
        reveal_strlit("commit");
    }
    if *w == blob {
        Some(ObjectKind::Blob)
    } else if *w == tree {
        assert(w@ != kind_word(ObjectKind::Blob));
        Some(ObjectKind::Tree)
    } else {
        None
    }
}

/// The entry that one line of a tree object describes, if any.
fn parse_entry_line(line: &str) -> (r: Option<TreeEntry>)
    ensures
        r matches Some(e) ==> entry_of_line(line@) == Some(e@),
        r is None ==> entry_of_line(line@) is None,
{
    let lc = chars_of(line);
    let fields = split_bounds(&lc, ' ');
    if fields.len() != 3 {
        return None;
    }
    let ghost f = split(line@, ' ');
    let word = slice_of(line, fields[0].0, fields[0].1);
    assert(word@ == f[0]);
    match entry_kind(&word) {
        None => None,
        Some(kind) => {
            let hash = slice_of(line, fields[1].0, fields[1].1);
            let path = slice_of(line, fields[2].0, fields[2].1);
            assert(hash@ == f[1]);
            assert(path@ == f[2]);
            Some(TreeEntry { kind, hash, path })
        },
    }
}

/// The entries of a tree object's text, in order.
pub fn parse_tree(text: &str) -> (r: Vec<TreeEntry>)
    ensures
        r@.map_values(|e: TreeEntry| e@) == tree_entries(text@),
{
    let t = chars_of(text);
    let lines = split_bounds(&t, '\n');
    let ghost ls = split(text@, '\n');
    let mut r: Vec<TreeEntry> = Vec::new();
    let mut i: usize = 0;
    while i < lines.len()
        invariant
            i <= lines@.len(),
            t@ == text@,
            ls == split(text@, '\n'),
            lines@.len() == ls.len(),
            forall|k: int| 0 <= k < lines@.len() ==> #[trigger] lines@[k].0 <= lines@[k].1 <= t@.len(),
            forall|k: int|
                0 <= k < lines@.len() ==> t@.subrange(lines@[k].0 as int, lines@[k].1 as int)
                    == #[trigger] ls[k],
            r@.map_values(|e: TreeEntry| e@) == entries_of_lines(ls.take(i as int)),
        decreases lines@.len() - i,
    {
        let line = slice_of(text, lines[i].0, lines[i].1);
        assert(line@ == ls[i as int]);
        assert(ls.take(i + 1).drop_last() =~= ls.take(i as int));
        assert(ls.take(i + 1).last() == ls[i as int]);
        let ghost before = r@;
        match parse_entry_line(line.as_str()) {
            Some(e) => {
                r.push(e);
                assert(r@.map_values(|e: TreeEntry| e@) =~= before.map_values(|e: TreeEntry| e@).push(e@));
            },
            None => {},
        }
        i = i + 1;
    }
    assert(ls.take(i as int) =~= ls);
    r
}

} // verus!
