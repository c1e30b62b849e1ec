//! Building a commit from the staged files and the previous commit's tree.

use vstd::prelude::*;
use crate::digest::sha1_hex;
use crate::error::PitError;
use crate::index::StagingIndex;
use crate::object::{ObjectKind, commit_object, commit_text};
use crate::store::ObjectStore;
use crate::text::chars_of;
use crate::tree::{NodeView, Tree, loaded_tree, overlay, rehashed, tree_hash_ok, tree_wf};

verus! {

/// `d` is a commit written into `after` on top of `parent`: its tree is
/// `t` with every tree object written and rehashed, and its text names that
/// tree's root, the parent and the message.
pub open spec fn is_commit_of(
    after: Map<Seq<char>, Seq<char>>,
    t: Seq<NodeView>,
    parent: Seq<char>,
    message: Seq<char>,
    d: Seq<char>,
) -> bool {
    exists|t2: Seq<NodeView>|
        {
            &&& tree_wf(t2)
            &&& rehashed(t, t2)
            &&& forall|k: int|
                0 <= k < t2.len() && t2[k].kind == ObjectKind::Tree ==> {
                    &&& #[trigger] tree_hash_ok(t2, k)
                    &&& after.contains_key(t2[k].hash)
                }
            &&& d == sha1_hex(commit_text(t2[0].hash, parent, message))
            &&& after.contains_key(d)
            &&& after[d] == commit_text(t2[0].hash, parent, message)
        }
}

/// A white-space character: space, tab, line feed, vertical tab, form feed
/// or carriage return.
pub open spec fn is_space(c: char) -> bool {
    c == ' ' || c == '\t' || c == '\n' || c == '\u{b}' || c == '\u{c}' || c == '\r'
}

/// A message is blank when it holds white space only (or nothing).
pub open spec fn is_blank(m: Seq<char>) -> bool {
    forall|i: int| 0 <= i < m.len() ==> is_space(#[trigger] m[i])
}

/// Whether `m` holds white space only.
pub fn blank(m: &String) -> (r: bool)
    ensures
        r == is_blank(m@),
{
    let cs = chars_of(m.as_str());
    let mut i: usize = 0;
    while i < cs.len()
        invariant
            cs@ == m@,
            i <= cs@.len(),
            forall|k: int| 0 <= k < i ==> is_space(#[trigger] cs@[k]),
        decreases cs@.len() - i,
    {
        let c = cs[i];
        if !(c == ' ' || c == '\t' || c == '\n' || c == '\u{b}' || c == '\u{c}' || c == '\r') {
            return false;
        }
        i = i + 1;
    }
    true
}

/// Commits the staged files on top of `parent` (empty for the first
/// commit) and returns the new commit's digest. Blank messages (white
/// space only) give
/// `EmptyInput`; an empty index, or staged files that change nothing in the
/// parent's tree, give `NothingToCommit`. Nothing is written on failure.
pub fn build_commit(
    store: &mut ObjectStore,
    index: &StagingIndex,
    parent: &String,
    message: &String,
) -> (r: Result<String, PitError>)
    requires
        old(store).wf(),
    ensures
        final(store).wf(),
        forall|d: Seq<char>| old(store)@.contains_key(d) ==> final(store)@.contains_key(d),
        r is Err ==> final(store)@ == old(store)@,
        is_blank(message@) ==> r == Err::<String, PitError>(PitError::EmptyInput),
        !is_blank(message@) && index@.len() == 0 ==> r == Err::<String, PitError>(
            PitError::NothingToCommit,
        ),
        !is_blank(message@) && index@.len() > 0 && !overlay(loaded_tree(old(store)@, parent@), index@).1
            ==> r == Err::<String, PitError>(PitError::NothingToCommit),
        !is_blank(message@) && index@.len() > 0 && overlay(loaded_tree(old(store)@, parent@), index@).1
            ==> (r matches Ok(d) && is_commit_of(
            final(store)@,
            overlay(loaded_tree(old(store)@, parent@), index@).0,
            parent@,
            message@,
            d@,
        )),
{
    if blank(message) {
        return Err(PitError::EmptyInput);
    }
    if index.is_empty() {
        return Err(PitError::NothingToCommit);
    }
    let mut tree = Tree::load(store, parent);
    let changed = tree.overlay_index(index);
    if !changed {
        return Err(PitError::NothingToCommit);
    }
    let ghost t1 = tree@;
    let ghost s0 = store@;
    tree.write_trees(store);
    proof {
        crate::tree::lemma_wf_len(tree@);
    }
    let ghost t2 = tree@;
    let ghost s1 = store@;
    let text = commit_object(tree.node(0).hash.as_str(), parent.as_str(), message.as_str());
    let d = store.put(text);
    proof {
        assert forall|k: int|
            0 <= k < t2.len() && t2[k].kind == ObjectKind::Tree implies {
                &&& #[trigger] tree_hash_ok(t2, k)
                &&& store@.contains_key(t2[k].hash)
            } by {
            assert(tree_hash_ok(t2, k));
            assert(s1.contains_key(t2[k].hash));
        }
        assert(is_commit_of(store@, t1, parent@, message@, d@));
    }
    Ok(d)
}

} // verus!
