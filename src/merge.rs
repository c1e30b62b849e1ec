//! Merging by fast-forward: ancestor chains and the decision between them.

use vstd::prelude::*;
use crate::error::PitError;
use crate::object::{commit_header, parse_commit};
use crate::store::ObjectStore;

verus! {

/// The parent that the commit stored under `d` names.
pub open spec fn parent_of(store: Map<Seq<char>, Seq<char>>, d: Seq<char>) -> Seq<char> {
    commit_header(store[d]).unwrap().1
}

/// `c` is the chain of commits from the root commit up to `tip`: each one
/// stored with a readable header, each naming the one before it as parent,
/// the first naming none.
pub open spec fn is_ancestry(
    store: Map<Seq<char>, Seq<char>>,
    tip: Seq<char>,
    c: Seq<Seq<char>>,
) -> bool {
    &&& c.len() > 0
    &&& c.last() == tip
    &&& forall|i: int|
        0 <= i < c.len() ==> {
            &&& (#[trigger] c[i]).len() > 0
            &&& store.contains_key(c[i])
            &&& commit_header(store[c[i]]) is Some
            &&& parent_of(store, c[i]) == if i == 0 {
                Seq::<char>::empty()
            } else {
                c[i - 1]
            }
        }
}

/// `a` is a prefix of `b`.
pub open spec fn is_prefix(a: Seq<Seq<char>>, b: Seq<Seq<char>>) -> bool {
    a.len() <= b.len() && b.take(a.len() as int) == a
}

/// The result of merging branch chain `b` into head chain `h`: the branch
/// tip when `h` is a strict prefix of `b` (fast-forward); nothing to do
/// when `b` is a prefix of `h`; otherwise the histories diverge.
pub open spec fn merge_outcome(h: Seq<Seq<char>>, b: Seq<Seq<char>>) -> Result<
    Seq<char>,
    PitError,
> {
    if h.len() == 0 || b.len() == 0 {
        Err(PitError::EmptyBranch)
    } else if is_prefix(b, h) {
        Err(PitError::NothingToMerge)
    } else if is_prefix(h, b) {
        Ok(b.last())
    } else {
        Err(PitError::NoSimpleMerge)
    }
}

pub open spec fn result_view(r: Result<String, PitError>) -> Result<Seq<char>, PitError> {
    match r {
        Ok(s) => Ok(s@),
        Err(e) => Err(e),
    }
}

/// A commit has one chain of ancestors.
pub proof fn lemma_ancestry_unique(
    store: Map<Seq<char>, Seq<char>>,
    tip: Seq<char>,
    c1: Seq<Seq<char>>,
    c2: Seq<Seq<char>>,
)
    requires
        is_ancestry(store, tip, c1),
        is_ancestry(store, tip, c2),
    ensures
        c1 == c2,
    decreases c1.len(),
{
    let n1 = c1.len() as int;
    let n2 = c2.len() as int;
    assert(c1[n1 - 1] == tip && c2[n2 - 1] == tip);
    if n1 == 1 || n2 == 1 {
        if n1 > 1 {
            assert(c1[n1 - 2].len() > 0);
        }
        if n2 > 1 {
            assert(c2[n2 - 2].len() > 0);
        }
        assert(c1 =~= c2);
    } else {
        let p = parent_of(store, tip);
        assert(is_ancestry(store, p, c1.drop_last())) by {
            assert forall|i: int| 0 <= i < c1.drop_last().len() implies #[trigger] c1.drop_last()[i] == c1[i] by {}
        }
        assert(is_ancestry(store, p, c2.drop_last())) by {
            assert forall|i: int| 0 <= i < c2.drop_last().len() implies #[trigger] c2.drop_last()[i] == c2[i] by {}
        }
        lemma_ancestry_unique(store, p, c1.drop_last(), c2.drop_last());
        assert(c1 =~= c1.drop_last().push(tip));
        assert(c2 =~= c2.drop_last().push(tip));
    }
}

/// No commit appears twice in a chain of ancestors.
pub proof fn lemma_ancestry_distinct(store: Map<Seq<char>, Seq<char>>, tip: Seq<char>, c: Seq<Seq<char>>)
    requires
        is_ancestry(store, tip, c),
    ensures
        c.no_duplicates(),
{
    assert forall|i: int, j: int| 0 <= i < c.len() && 0 <= j < c.len() && i != j implies c[i] != c[j] by {
        if c[i] == c[j] {
            let a = c.take(i + 1);
            let b = c.take(j + 1);
            assert(is_ancestry(store, c[i], a)) by {
                assert forall|k: int| 0 <= k < a.len() implies #[trigger] a[k] == c[k] by {}
            }
            assert(is_ancestry(store, c[i], b)) by {
                assert forall|k: int| 0 <= k < b.len() implies #[trigger] b[k] == c[k] by {}
            }
            lemma_ancestry_unique(store, c[i], a, b);
        }
    }
}

/// Decides a merge from the two ancestor chains, root first.
pub fn decide_merge(head: &Vec<String>, branch: &Vec<String>) -> (r: Result<String, PitError>)
    ensures
        result_view(r) == merge_outcome(
            head@.map_values(|s: String| s@),
            branch@.map_values(|s: String| s@),
        ),
{
    let ghost h = head@.map_values(|s: String| s@);
    let ghost b = branch@.map_values(|s: String| s@);
    if head.len() == 0 || branch.len() == 0 {
        return Err(PitError::EmptyBranch);
    }
    let mut k: usize = 0;
    while k < head.len() && k < branch.len() && head[k] == branch[k]
        invariant
            k <= head@.len(),
            k <= branch@.len(),
            h == head@.map_values(|s: String| s@),
            b == branch@.map_values(|s: String| s@),
            h.take(k as int) == b.take(k as int),
        decreases head@.len() - k,
    {
        assert(h.take(k + 1) =~= h.take(k as int).push(h[k as int]));
        assert(b.take(k + 1) =~= b.take(k as int).push(b[k as int]));
        k = k + 1;
    }
    if k == branch.len() {
        assert(h.take(b.len() as int) =~= b);
        Err(PitError::NothingToMerge)
    } else if k == head.len() {
        assert(b.take(h.len() as int) =~= h);
        assert(!is_prefix(b, h));
        Ok(branch[branch.len() - 1].clone())
    } else {
        assert(h[k as int] != b[k as int]);
        assert(!is_prefix(b, h)) by {
            if is_prefix(b, h) {
                assert(h.take(b.len() as int)[k as int] == h[k as int]);
            }
        }
        assert(!is_prefix(h, b)) by {
            if is_prefix(h, b) {
                assert(b.take(h.len() as int)[k as int] == b[k as int]);
            }
        }
        Err(PitError::NoSimpleMerge)
    }
}

/// `w` walks back from `tip`: each commit stored with a readable header,
/// each the parent of the one before.
#[verifier::opaque]
pub open spec fn is_walk(store: Map<Seq<char>, Seq<char>>, tip: Seq<char>, w: Seq<Seq<char>>) -> bool {
    forall|i: int|
        0 <= i < w.len() ==> {
            &&& (#[trigger] w[i]).len() > 0
            &&& store.contains_key(w[i])
            &&& commit_header(store[w[i]]) is Some
            &&& (i == 0 ==> w[i] == tip)
            &&& (i > 0 ==> w[i] == parent_of(store, w[i - 1]))
        }
}

/// Every chain of ancestors of `tip` ends with `w` reversed, and `cur` is
/// the commit before that.
#[verifier::opaque]
pub open spec fn walk_follows(
    store: Map<Seq<char>, Seq<char>>,
    tip: Seq<char>,
    w: Seq<Seq<char>>,
    cur: Seq<char>,
) -> bool {
    forall|c: Seq<Seq<char>>|
        #[trigger] is_ancestry(store, tip, c) ==> {
            &&& w.len() < c.len()
            &&& forall|i: int| 0 <= i < w.len() ==> #[trigger] w[i] == c[c.len() - 1 - i]
            &&& cur == c[c.len() - 1 - w.len()]
        }
}

proof fn lemma_walk_start(store: Map<Seq<char>, Seq<char>>, tip: Seq<char>)
    ensures
        is_walk(store, tip, Seq::empty()),
        walk_follows(store, tip, Seq::empty(), tip),
{
    reveal(is_walk);
    reveal(walk_follows);
}

proof fn lemma_walk_step(
    store: Map<Seq<char>, Seq<char>>,
    tip: Seq<char>,
    w: Seq<Seq<char>>,
    cur: Seq<char>,
)
    requires
        is_walk(store, tip, w),
        walk_follows(store, tip, w, cur),
        w.len() == 0 ==> cur == tip,
        w.len() > 0 ==> cur == parent_of(store, w.last()),
        cur.len() > 0,
        store.contains_key(cur),
        commit_header(store[cur]) is Some,
    ensures
        is_walk(store, tip, w.push(cur)),
        parent_of(store, cur).len() > 0 ==> walk_follows(store, tip, w.push(cur), parent_of(store, cur)),
{
    reveal(is_walk);
    reveal(walk_follows);
    let w2 = w.push(cur);
    assert forall|i: int| 0 <= i < w2.len() implies {
        &&& (#[trigger] w2[i]).len() > 0
        &&& store.contains_key(w2[i])
        &&& commit_header(store[w2[i]]) is Some
        &&& (i == 0 ==> w2[i] == tip)
        &&& (i > 0 ==> w2[i] == parent_of(store, w2[i - 1]))
    } by {
        if i < w.len() {
            assert(w2[i] == w[i]);
        }
        if i > 0 {
            assert(w2[i - 1] == w[i - 1]);
        }
    }
    if parent_of(store, cur).len() > 0 {
        let p = parent_of(store, cur);
        assert forall|c: Seq<Seq<char>>| #[trigger] is_ancestry(store, tip, c) implies {
            &&& w2.len() < c.len()
            &&& forall|i: int| 0 <= i < w2.len() ==> #[trigger] w2[i] == c[c.len() - 1 - i]
            &&& p == c[c.len() - 1 - w2.len()]
        } by {
            let m = c.len() - 1 - w.len();
            assert(cur == c[m]);
            if m == 0 {
                assert(parent_of(store, c[0]) == Seq::<char>::empty());
            }
            assert(parent_of(store, c[m]) == c[m - 1]);
            assert forall|i: int| 0 <= i < w2.len() implies #[trigger] w2[i] == c[c.len() - 1 - i] by {
                if i < w.len() {
                    assert(w2[i] == w[i]);
                }
            }
        }
    }
}

proof fn lemma_walk_done(store: Map<Seq<char>, Seq<char>>, tip: Seq<char>, w: Seq<Seq<char>>)
    requires
        is_walk(store, tip, w),
        w.len() > 0,
        parent_of(store, w.last()).len() == 0,
    ensures
        is_ancestry(store, tip, w.reverse()),
{
    reveal(is_walk);
    let c = w.reverse();
    let n = w.len() as int;
    assert forall|i: int| 0 <= i < c.len() implies {
        &&& (#[trigger] c[i]).len() > 0
        &&& store.contains_key(c[i])
        &&& commit_header(store[c[i]]) is Some
        &&& parent_of(store, c[i]) == if i == 0 {
            Seq::<char>::empty()
        } else {
            c[i - 1]
        }
    } by {
        assert(c[i] == w[n - 1 - i]);
        if i > 0 {
            assert(c[i - 1] == w[n - i]);
        }
    }
    assert(c.last() == w[0]);
}

proof fn lemma_walk_bound(store: &ObjectStore, tip: Seq<char>, w: Seq<Seq<char>>, cur: Seq<char>)
    requires
        store.wf(),
        walk_follows(store@, tip, w, cur),
        w.len() > store.entries().len(),
    ensures
        forall|c: Seq<Seq<char>>| !is_ancestry(store@, tip, c),
{
    reveal(walk_follows);
    assert forall|c: Seq<Seq<char>>| !is_ancestry(store@, tip, c) by {
        if is_ancestry(store@, tip, c) {
            lemma_ancestry_distinct(store@, tip, c);
            c.unique_seq_to_set();
            store.lemma_dom_bound();
            assert(c.to_set().subset_of(store@.dom()));
            vstd::set_lib::lemma_len_subset(c.to_set(), store@.dom());
        }
    }
}

/// The strings of `v` in reverse order.
fn reversed(v: &Vec<String>) -> (r: Vec<String>)
    ensures
        r@.map_values(|s: String| s@) == v@.map_values(|s: String| s@).reverse(),
{
    let mut r: Vec<String> = Vec::new();
    let mut j: usize = v.len();
    while j > 0
        invariant
            j <= v@.len(),
            r@.len() == v@.len() - j,
            forall|i: int| 0 <= i < r@.len() ==> (#[trigger] r@[i]) == v@[v@.len() - 1 - i],
        decreases j,
    {
        j = j - 1;
        r.push(v[j].clone());
    }
    assert(r@.map_values(|s: String| s@) =~= v@.map_values(|s: String| s@).reverse());
    r
}

/// The chain of commits from the root commit up to `tip`, root first.
/// `NotFound` when a commit on the way is missing, `Corrupted` when one has
/// no readable header or the parents run in a circle.
pub fn ancestry(store: &ObjectStore, tip: &String) -> (r: Result<Vec<String>, PitError>)
    requires
        store.wf(),
        tip@.len() > 0,
    ensures
        r matches Ok(c) ==> is_ancestry(store@, tip@, c@.map_values(|s: String| s@)),
        (exists|c: Seq<Seq<char>>| is_ancestry(store@, tip@, c)) ==> r is Ok,
{
    let ghost sv = store@;
    let mut rev: Vec<String> = Vec::new();
    let mut cur = tip.clone();
    let fuel = store.len();
    proof {
        lemma_walk_start(sv, tip@);
        assert(rev@.map_values(|s: String| s@) =~= Seq::<Seq<char>>::empty());
    }
    loop
        invariant
            store.wf(),
            sv == store@,
            cur@.len() > 0,
            rev@.len() <= fuel + 1,
            fuel == store.entries().len(),
            rev@.len() > 0 ==> cur@ == parent_of(sv, rev@.map_values(|s: String| s@).last()),
            rev@.len() == 0 ==> cur@ == tip@,
            is_walk(sv, tip@, rev@.map_values(|s: String| s@)),
            walk_follows(sv, tip@, rev@.map_values(|s: String| s@), cur@),
        decreases fuel + 1 - rev@.len(),
    {
        let ghost w = rev@.map_values(|s: String| s@);
        if rev.len() > fuel {
            proof {
                lemma_walk_bound(store, tip@, w, cur@);
            }
            return Err(PitError::Corrupted);
        }
        let text = match store.get(&cur) {
            Ok(t) => t,
            Err(e) => {
                proof {
                    reveal(walk_follows);
                    assert forall|c: Seq<Seq<char>>| !is_ancestry(sv, tip@, c) by {
                        if is_ancestry(sv, tip@, c) {
                            assert(cur@ == c[c.len() - 1 - w.len()]);
                        }
                    }
                }
                return Err(e);
            },
        };
        let (_tree, parent) = match parse_commit(text.as_str()) {
            Some(h) => h,
            None => {
                proof {
                    reveal(walk_follows);
                    assert forall|c: Seq<Seq<char>>| !is_ancestry(sv, tip@, c) by {
                        if is_ancestry(sv, tip@, c) {
                            assert(cur@ == c[c.len() - 1 - w.len()]);
                        }
                    }
                }
                return Err(PitError::Corrupted);
            },
        };
        proof {
            lemma_walk_step(sv, tip@, w, cur@);
        }
        let done = parent.as_str().is_empty();
        rev.push(cur);
        assert(rev@.map_values(|s: String| s@) =~= w.push(cur@));
        if done {
            proof {
                lemma_walk_done(sv, tip@, w.push(cur@));
            }
            return Ok(reversed(&rev));
        }
        cur = parent;
    }
}

/// Merges `branch` into `head`, both given by their tip commits: the branch
/// tip when the head's history is a strict prefix of the branch's.
pub fn merge(store: &ObjectStore, head: &String, branch: &String) -> (r: Result<String, PitError>)
    requires
        store.wf(),
    ensures
        (head@.len() == 0 || branch@.len() == 0) ==> r == Err::<String, PitError>(PitError::EmptyBranch),
        forall|hc: Seq<Seq<char>>, bc: Seq<Seq<char>>|
            is_ancestry(store@, head@, hc) && is_ancestry(store@, branch@, bc) ==> result_view(r)
                == merge_outcome(hc, bc),
        head@.len() > 0 && !(exists|hc: Seq<Seq<char>>| is_ancestry(store@, head@, hc)) ==> r is Err,
        branch@.len() > 0 && !(exists|bc: Seq<Seq<char>>| is_ancestry(store@, branch@, bc)) ==> r is Err,
        r matches Ok(t) ==> exists|hc: Seq<Seq<char>>, bc: Seq<Seq<char>>|
            is_ancestry(store@, head@, hc) && is_ancestry(store@, branch@, bc) && merge_outcome(hc, bc)
                == Ok::<Seq<char>, PitError>(t@),
        r matches Ok(t) ==> t@ == branch@,
        head@ == branch@ ==> r is Err,
{
    if head.as_str().is_empty() || branch.as_str().is_empty() {
        return Err(PitError::EmptyBranch);
    }
    let h = match ancestry(store, head) {
        Ok(c) => c,
        Err(e) => {
            return Err(e);
        },
    };
    let b = match ancestry(store, branch) {
        Ok(c) => c,
        Err(e) => {
            return Err(e);
        },
    };
    let r = decide_merge(&h, &b);
    proof {
        let hv = h@.map_values(|s: String| s@);
        let bv = b@.map_values(|s: String| s@);
        assert forall|hc: Seq<Seq<char>>, bc: Seq<Seq<char>>|
            is_ancestry(store@, head@, hc) && is_ancestry(store@, branch@, bc) implies result_view(r)
                == merge_outcome(hc, bc) by {
            lemma_ancestry_unique(store@, head@, hc, hv);
            lemma_ancestry_unique(store@, branch@, bc, bv);
        }
        if head@ == branch@ {
            lemma_ancestry_unique(store@, head@, hv, bv);
            assert(bv.take(hv.len() as int) =~= hv);
        }
        if r is Ok {
            assert(bv.last() == branch@);
        }
    }
    r
}

/// Merges the branch whose ref holds `branch_ref` (none when the branch
/// does not exist) into `head`.
pub fn merge_branch(store: &ObjectStore, head: &String, branch_ref: Option<String>) -> (r: Result<
    String,
    PitError,
>)
    requires
        store.wf(),
    ensures
        branch_ref is None ==> r == Err::<String, PitError>(PitError::BranchNotFound),
        branch_ref matches Some(b) ==> {
            &&& (head@.len() == 0 || b@.len() == 0) ==> r == Err::<String, PitError>(PitError::EmptyBranch)
            &&& forall|hc: Seq<Seq<char>>, bc: Seq<Seq<char>>|
                is_ancestry(store@, head@, hc) && is_ancestry(store@, b@, bc) ==> result_view(r)
                    == merge_outcome(hc, bc)
            &&& (head@.len() > 0 && !(exists|hc: Seq<Seq<char>>| is_ancestry(store@, head@, hc)))
                ==> r is Err
            &&& (b@.len() > 0 && !(exists|bc: Seq<Seq<char>>| is_ancestry(store@, b@, bc))) ==> r is Err
            &&& (r matches Ok(t) ==> exists|hc: Seq<Seq<char>>, bc: Seq<Seq<char>>|
                is_ancestry(store@, head@, hc) && is_ancestry(store@, b@, bc) && merge_outcome(hc, bc)
                    == Ok::<Seq<char>, PitError>(t@))
            &&& (r matches Ok(t) ==> t@ == b@)
            &&& (head@ == b@ ==> r is Err)
        },
{
    match branch_ref {
        None => Err(PitError::BranchNotFound),
        Some(b) => merge(store, head, &b),
    }
}

/// Merging a branch whose history extends the current one moves to the
/// branch tip; merging two histories where neither contains the other fails
/// with `NoSimpleMerge`.
pub proof fn law_merge_outcomes(h: Seq<Seq<char>>, b: Seq<Seq<char>>)
    ensures
        h.len() > 0 && h.len() < b.len() && b.take(h.len() as int) == h ==> merge_outcome(h, b)
            == Ok::<Seq<char>, PitError>(b.last()),
        h.len() > 0 && b.len() > 0 && !is_prefix(h, b) && !is_prefix(b, h) ==> merge_outcome(h, b)
            == Err::<Seq<char>, PitError>(PitError::NoSimpleMerge),
{
}

} // verus!
