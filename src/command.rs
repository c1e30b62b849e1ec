//! The commands of the engine with their arguments, and the small rules
//! that the commands apply around the core operations.

use vstd::prelude::*;
use vstd::string::StringExecFns;
use crate::index::StagingIndex;
use crate::store::ObjectStore;
use crate::text::{chars_of, slice_of, split, split_bounds};
use crate::tree::{Tree, overlay, tree_wf};

verus! {

broadcast use vstd::string::group_string_axioms;

/// Arguments of `add`: the files and directories to stage.
#[derive(Debug)]
pub struct AddArgs {
    pub directory: Vec<String>,
}

/// Stages files.
#[derive(Debug)]
pub struct AddCommand {
    pub arguments: AddArgs,
}

impl AddCommand {
    pub fn new(args: AddArgs) -> (r: Self)
        ensures
            r.arguments == args,
    {
        AddCommand { arguments: args }
    }
}

/// Arguments of `checkout`: the branch, and whether to create it.
#[derive(Debug)]
pub struct CheckoutArgs {
    pub branch: String,
    pub create: Option<bool>,
}

/// Switches branches.
#[derive(Debug)]
pub struct CheckoutCommand {
    pub arguments: CheckoutArgs,
}

impl CheckoutCommand {
    pub fn new(args: CheckoutArgs) -> (r: Self)
        ensures
            r.arguments == args,
    {
        CheckoutCommand { arguments: args }
    }
}

/// Arguments of `commit`: the message.
#[derive(Debug)]
pub struct CommitArgs {
    pub message: String,
}

/// Commits the staged files.
#[derive(Debug)]
pub struct CommitCommand {
    pub arguments: CommitArgs,
}

impl CommitCommand {
    pub fn new(args: CommitArgs) -> (r: Self)
        ensures
            r.arguments == args,
    {
        CommitCommand { arguments: args }
    }
}

/// Arguments of `diff`: the branch or commit to compare with, and a file.
#[derive(Debug)]
pub struct DiffArgs {
    pub commit: Option<String>,
    pub file: Option<String>,
}

/// Shows differences.
#[derive(Debug)]
pub struct DiffCommand {
    pub arguments: DiffArgs,
}

impl DiffCommand {
    pub fn new(args: DiffArgs) -> (r: Self)
        ensures
            r.arguments == args,
    {
        DiffCommand { arguments: args }
    }
}

/// Arguments of `init`: the directory to set up, below the current one.
#[derive(Debug)]
pub struct InitArgs {
    pub directory: Option<String>,
}

/// Creates a repository.
#[derive(Debug)]
pub struct InitializeCommand {
    pub arguments: InitArgs,
}

impl InitializeCommand {
    pub fn new(args: InitArgs) -> (r: Self)
        ensures
            r.arguments == args,
    {
        InitializeCommand { arguments: args }
    }
}

/// Arguments of `merge`: the branch to merge into the current one.
#[derive(Debug)]
pub struct MergeArgs {
    pub branch: String,
}

/// Merges a branch by fast-forward.
#[derive(Debug)]
pub struct MergeCommand {
    pub arguments: MergeArgs,
}

impl MergeCommand {
    pub fn new(args: MergeArgs) -> (r: Self)
        ensures
            r.arguments == args,
    {
        MergeCommand { arguments: args }
    }
}

/// Arguments of `status`: none.
#[derive(Debug)]
pub struct StatusArgs {}

/// Shows staged and unstaged changes.
#[derive(Debug)]
pub struct StatusCommand {
    pub arguments: StatusArgs,
}

impl StatusCommand {
    pub fn new(args: StatusArgs) -> (r: Self)
        ensures
            r.arguments == args,
    {
        StatusCommand { arguments: args }
    }
}

pub open spec fn dot_slash() -> Seq<char> {
    seq!['.', '/']
}

/// `path` is ignored: listed as it is or below `./`.
pub open spec fn ignored_by(ignored: Seq<Seq<char>>, path: Seq<char>) -> bool {
    exists|i: int| 0 <= i < ignored.len() && (#[trigger] ignored[i] == path || ignored[i] == dot_slash() + path)
}

/// Whether `path` is in the ignore list, as it is or below `./`.
pub fn is_ignored(ignored: &Vec<String>, path: &String) -> (r: bool)
    ensures
        r == ignored_by(ignored@.map_values(|s: String| s@), path@),
{
    let ghost iv = ignored@.map_values(|s: String| s@);
    let ds = "./";
    proof {
        reveal_strlit("./");
    }
    assert(ds@ =~= dot_slash());
    let mut below = String::from_str(ds);
    below.append(path.as_str());
    let mut i: usize = 0;
    while i < ignored.len()
        invariant
            i <= ignored@.len(),
            iv == ignored@.map_values(|s: String| s@),
            below@ == dot_slash() + path@,
            forall|j: int| 0 <= j < i ==> !(#[trigger] iv[j] == path@ || iv[j] == dot_slash() + path@),
        decreases ignored@.len() - i,
    {
        if ignored[i] == *path || ignored[i] == below {
            assert(iv[i as int] == ignored@[i as int]@);
            return true;
        }
        i = i + 1;
    }
    false
}

/// A line without its carriage return, if it ends with one.
pub open spec fn without_cr(l: Seq<char>) -> Seq<char> {
    if l.len() > 0 && l.last() == '\r' {
        l.drop_last()
    } else {
        l
    }
}

/// The ignore patterns of an ignore file in directory `dir`: each non-empty
/// line, without a carriage return that ends it, placed below `dir`
/// (directly after `./` for the top directory).
pub open spec fn ignore_patterns(dir: Seq<char>, lines: Seq<Seq<char>>) -> Seq<Seq<char>>
    decreases lines.len(),
{
    if lines.len() == 0 {
        Seq::empty()
    } else {
        let prev = ignore_patterns(dir, lines.drop_last());
        let l = without_cr(lines.last());
        if l.len() == 0 {
            prev
        } else if dir == dot_slash() {
            prev.push(dir + l)
        } else {
            prev.push(dir + seq!['/'] + l)
        }
    }
}

/// The ignore patterns that `content`, an ignore file in `dir`, lists.
pub fn ignore_entries(dir: &String, content: &str) -> (r: Vec<String>)
    ensures
        r@.map_values(|s: String| s@) == ignore_patterns(dir@, split(content@, '\n')),
{
    let cs = chars_of(content);
    let b = split_bounds(&cs, '\n');
    let ghost ls = split(content@, '\n');
    let ds = String::from_str("./");
    let slash = "/";
    proof {
        reveal_strlit("./");
        reveal_strlit("/");
    }
    assert(ds@ =~= dot_slash());
    let top = *dir == ds;
    let mut r: Vec<String> = Vec::new();
    let mut i: usize = 0;
    while i < b.len()
        invariant
            i <= b@.len(),
            cs@ == content@,
            ls == split(content@, '\n'),
            b@.len() == ls.len(),
            top == (dir@ == dot_slash()),
            slash@ == seq!['/'],
            forall|k: int| 0 <= k < b@.len() ==> #[trigger] b@[k].0 <= b@[k].1 <= cs@.len(),
            forall|k: int| 0 <= k < b@.len() ==> cs@.subrange(b@[k].0 as int, b@[k].1 as int) == #[trigger] ls[k],
            r@.map_values(|s: String| s@) == ignore_patterns(dir@, ls.take(i as int)),
        decreases b@.len() - i,
    {
        let mut end = b[i].1;
        if end > b[i].0 && cs[end - 1] == '\r' {
            end = end - 1;
        }
        let line = slice_of(content, b[i].0, end);
        assert(line@ =~= without_cr(ls[i as int]));
        assert(ls.take(i + 1).drop_last() =~= ls.take(i as int));
        assert(ls.take(i + 1).last() == ls[i as int]);
        let ghost before = r@;
        if !line.as_str().is_empty() {
            let mut e = dir.clone();
            if !top {
                e.append(slash);
            }
            e.append(line.as_str());
            r.push(e);
            assert(r@.map_values(|s: String| s@) =~= before.map_values(|s: String| s@).push(
                ignore_patterns(dir@, ls.take(i + 1)).last(),
            ));
        }
        i = i + 1;
    }
    assert(ls.take(i as int) =~= ls);
    r
}

pub open spec fn refs_prefix() -> Seq<char> {
    seq!['r', 'e', 'f', 's', '/']
}

/// What HEAD holds when `branch` is checked out: `refs/<branch>`.
pub fn head_ref_for(branch: &String) -> (r: String)
    ensures
        r@ == refs_prefix() + branch@,
{
    let p = "refs/";
    proof {
        reveal_strlit("refs/");
    }
    assert(p@ =~= refs_prefix());
    let mut r = String::from_str(p);
    r.append(branch.as_str());
    r
}

/// The commit that a diff target names: the commit its branch ref holds
/// when there is such a branch, else the target itself when it is a stored
/// object, else nothing (empty).
pub fn resolve_target(store: &ObjectStore, target: &String, branch_ref: Option<String>) -> (r: String)
    requires
        store.wf(),
    ensures
        branch_ref matches Some(c) ==> r@ == c@,
        branch_ref is None && store@.contains_key(target@) ==> r@ == target@,
        branch_ref is None && !store@.contains_key(target@) ==> r@.len() == 0,
{
    match branch_ref {
        Some(c) => c,
        None => if store.contains(target) {
            target.clone()
        } else {
            String::new()
        },
    }
}

/// Overlays the staged files onto `tree` one by one, and says for each
/// whether it added a new file to the tree (rather than changing one).
pub fn staged_added(tree: &mut Tree, index: &StagingIndex) -> (r: Vec<bool>)
    requires
        tree_wf(old(tree)@),
    ensures
        final(tree)@ == overlay(old(tree)@, index@).0,
        tree_wf(final(tree)@),
        r@.len() == index@.len(),
        forall|i: int|
            0 <= i < r@.len() ==> #[trigger] r@[i] == (overlay(old(tree)@, index@.take(i + 1)).0.len()
                > overlay(old(tree)@, index@.take(i)).0.len()),
{
    let ghost s = index@;
    let ghost t0 = tree@;
    let mut r: Vec<bool> = Vec::new();
    let mut i: usize = 0;
    assert(s.take(0) =~= Seq::<(Seq<char>, Seq<char>)>::empty());
    while i < index.len()
        invariant
            s == index@,
            i <= s.len(),
            tree_wf(tree@),
            tree@ == overlay(t0, s.take(i as int)).0,
            r@.len() == i,
            forall|j: int|
                0 <= j < i ==> #[trigger] r@[j] == (overlay(t0, s.take(j + 1)).0.len() > overlay(
                    t0,
                    s.take(j),
                ).0.len()),
        decreases s.len() - i,
    {
        let (path, digest) = index.get(i);
        let segs = crate::tree::segments_of(path.as_str());
        assert(s.take(i + 1).drop_last() =~= s.take(i as int));
        assert(s.take(i + 1).last() == s[i as int]);
        let before = tree.len();
        tree.place_blob(&segs, digest);
        let after = tree.len();
        r.push(after > before);
        i = i + 1;
    }
    assert(s.take(i as int) =~= s);
    r
}

} // verus!
