//! The staging index: the blobs queued for the next commit, at most one
//! per source file path.

use vstd::prelude::*;
use crate::error::PitError;
use crate::object::{blob_object, blob_text, is_blob_of, parse_blob};
use crate::store::ObjectStore;
use crate::digest::sha1_hex;
use crate::text::has_char;

verus! {

/// One staged file: the path it was read from and the digest of its blob.
#[derive(Debug)]
pub struct StagedFile {
    pub path: String,
    pub digest: String,
}

/// The staged files, oldest first.
pub struct StagingIndex {
    files: Vec<StagedFile>,
}

/// The entries whose path is not `p`, in order.
pub open spec fn without_path(s: Seq<(Seq<char>, Seq<char>)>, p: Seq<char>) -> Seq<
    (Seq<char>, Seq<char>),
>
    decreases s.len(),
{
    if s.len() == 0 {
        s
    } else {
        let prev = without_path(s.drop_last(), p);
        if s.last().0 == p {
            prev
        } else {
            prev.push(s.last())
        }
    }
}

/// The entries whose path is `p`, in order.
pub open spec fn with_path(s: Seq<(Seq<char>, Seq<char>)>, p: Seq<char>) -> Seq<
    (Seq<char>, Seq<char>),
>
    decreases s.len(),
{
    if s.len() == 0 {
        s
    } else {
        let prev = with_path(s.drop_last(), p);
        if s.last().0 == p {
            prev.push(s.last())
        } else {
            prev
        }
    }
}

pub open spec fn has_digest(s: Seq<(Seq<char>, Seq<char>)>, d: Seq<char>) -> bool {
    exists|i: int| 0 <= i < s.len() && (#[trigger] s[i]).1 == d
}

/// The index after staging `d` for path `p`: the entry for `p` goes, then
/// `d` is appended unless it is already there.
pub open spec fn staged_after(s: Seq<(Seq<char>, Seq<char>)>, p: Seq<char>, d: Seq<char>) -> Seq<
    (Seq<char>, Seq<char>),
> {
    let kept = without_path(s, p);
    if has_digest(kept, d) {
        kept
    } else {
        kept.push((p, d))
    }
}

/// No path and no digest twice.
pub open spec fn index_wf(s: Seq<(Seq<char>, Seq<char>)>) -> bool {
    forall|i: int, j: int|
        0 <= i < j < s.len() ==> (#[trigger] s[i]).0 != (#[trigger] s[j]).0 && s[i].1 != s[j].1
}

/// `p` is the path recorded in the blob `t`.
pub open spec fn is_blob_path(t: Seq<char>, p: Seq<char>) -> bool {
    exists|c: Seq<char>| is_blob_of(t, c, p)
}

/// The path recorded in a blob's text, if it is a blob.
pub open spec fn blob_path(t: Seq<char>) -> Option<Seq<char>> {
    if exists|p: Seq<char>| is_blob_path(t, p) {
        Some(choose|p: Seq<char>| is_blob_path(t, p))
    } else {
        None
    }
}

/// A blob's text determines its content and path.
pub proof fn lemma_blob_unique(t: Seq<char>, c1: Seq<char>, p1: Seq<char>, c2: Seq<char>, p2: Seq<char>)
    requires
        is_blob_of(t, c1, p1),
        is_blob_of(t, c2, p2),
    ensures
        c1 == c2,
        p1 == p2,
{
    let n = t.len() as int;
    if p1.len() < p2.len() {
        assert(t[n - 7 - p1.len()] == '\n');
        assert(p2[p2.len() - 1 - p1.len()] == t[n - 7 - p1.len()]);
    } else if p2.len() < p1.len() {
        assert(t[n - 7 - p2.len()] == '\n');
        assert(p1[p1.len() - 1 - p2.len()] == t[n - 7 - p2.len()]);
    } else {
        assert(c1.len() == c2.len());
        assert(p1 =~= t.subrange(c1.len() + 2int, n - 6));
        assert(p2 =~= t.subrange(c2.len() + 2int, n - 6));
        assert(c1 =~= t.subrange(0, c1.len() as int));
        assert(c2 =~= t.subrange(0, c2.len() as int));
    }
}

proof fn lemma_blob_path(t: Seq<char>, c: Seq<char>, p: Seq<char>)
    requires
        is_blob_of(t, c, p),
    ensures
        blob_path(t) == Some(p),
{
    assert(is_blob_path(t, p));
    let q = choose|q: Seq<char>| is_blob_path(t, q);
    let c2 = choose|c2: Seq<char>| is_blob_of(t, c2, q);
    lemma_blob_unique(t, c, p, c2, q);
}

proof fn lemma_without_path_props(s: Seq<(Seq<char>, Seq<char>)>, p: Seq<char>)
    ensures
        forall|i: int|
            0 <= i < without_path(s, p).len() ==> (#[trigger] without_path(s, p)[i]).0 != p
                && s.contains(without_path(s, p)[i]),
        index_wf(s) ==> index_wf(without_path(s, p)),
        with_path(without_path(s, p), p).len() == 0,
        forall|d: Seq<char>| has_digest(without_path(s, p), d) ==> has_digest(s, d),
    decreases s.len(),
{
    if s.len() > 0 {
        lemma_without_path_props(s.drop_last(), p);
        let prev = without_path(s.drop_last(), p);
        assert forall|i: int| 0 <= i < s.drop_last().len() implies s.contains(
            #[trigger] s.drop_last()[i],
        ) by {
            assert(s[i] == s.drop_last()[i]);
        }
        assert(s[s.len() - 1] == s.last());
        if index_wf(s) {
            assert(index_wf(s.drop_last())) by {
                assert forall|i: int, j: int|
                    0 <= i < j < s.drop_last().len() implies (#[trigger] s.drop_last()[i]).0
                    != (#[trigger] s.drop_last()[j]).0 && s.drop_last()[i].1
                    != s.drop_last()[j].1 by {
                    assert(s[i] == s.drop_last()[i] && s[j] == s.drop_last()[j]);
                }
            }
        }
        assert forall|d: Seq<char>| has_digest(prev, d) implies has_digest(s, d) by {
            let i = choose|i: int| 0 <= i < s.drop_last().len() && (#[trigger] s.drop_last()[i]).1 == d;
            assert(s[i] == s.drop_last()[i]);
        }
        if s.last().0 != p {
            let r = prev.push(s.last());
            assert(with_path(r, p) == with_path(prev, p)) by {
                assert(r.drop_last() =~= prev);
            }
            if index_wf(s) {
                assert forall|i: int, j: int|
                    0 <= i < j < r.len() implies (#[trigger] r[i]).0 != (#[trigger] r[j]).0
                    && r[i].1 != r[j].1 by {
                    if j == r.len() - 1 {
                        assert(s.drop_last().contains(prev[i]));
                        let k = choose|k: int| 0 <= k < s.drop_last().len() && s.drop_last()[k] == prev[i];
                        assert(s[k] == prev[i]);
                        assert(s[s.len() - 1] == r[j]);
                    } else {
                        assert(r[i] == prev[i] && r[j] == prev[j]);
                    }
                }
            }
            assert forall|d: Seq<char>| has_digest(r, d) implies has_digest(s, d) by {
                let i = choose|i: int| 0 <= i < r.len() && (#[trigger] r[i]).1 == d;
                if i < prev.len() {
                    assert(r[i] == prev[i]);
                    assert(has_digest(prev, d));
                } else {
                    assert(s[s.len() - 1].1 == d);
                }
            }
        }
    }
}

proof fn lemma_with_path_push(s: Seq<(Seq<char>, Seq<char>)>, e: (Seq<char>, Seq<char>), p: Seq<char>)
    ensures
        with_path(s.push(e), p) == (if e.0 == p { with_path(s, p).push(e) } else { with_path(s, p) }),
{
    assert(s.push(e).drop_last() =~= s);
}

impl StagingIndex {
    /// The staged files as (path, digest) pairs, oldest first.
    pub closed spec fn view(&self) -> Seq<(Seq<char>, Seq<char>)> {
        self.files@.map_values(|f: StagedFile| (f.path@, f.digest@))
    }

    /// An empty index.
    pub fn new() -> (r: StagingIndex)
        ensures
            r@ == Seq::<(Seq<char>, Seq<char>)>::empty(),
            index_wf(r@),
    {
        let r = StagingIndex { files: Vec::new() };
        assert(r@ =~= Seq::<(Seq<char>, Seq<char>)>::empty());
        r
    }

    /// The number of staged files.
    pub fn len(&self) -> (r: usize)
        ensures
            r == self@.len(),
    {
        self.files.len()
    }

    /// Whether nothing is staged.
    pub fn is_empty(&self) -> (r: bool)
        ensures
            r == (self@.len() == 0),
    {
        self.files.len() == 0
    }

    /// The path and digest of the `i`-th staged file.
    pub fn get(&self, i: usize) -> (r: (&String, &String))
        requires
            i < self@.len(),
        ensures
            (r.0@, r.1@) == self@[i as int],
    {
        (&self.files[i].path, &self.files[i].digest)
    }

    /// Empties the index.
    pub fn clear(&mut self)
        ensures
            final(self)@ == Seq::<(Seq<char>, Seq<char>)>::empty(),
    {
        self.files = Vec::new();
        assert(self@ =~= Seq::<(Seq<char>, Seq<char>)>::empty());
    }

    /// Stages `digest` for `path`: the entry for that path is replaced and the
    /// digest appended unless it is already staged.
    pub fn stage(&mut self, path: String, digest: String)
        requires
            index_wf(old(self)@),
        ensures
            final(self)@ == staged_after(old(self)@, path@, digest@),
            index_wf(final(self)@),
    {
        let ghost s = self@;
        let mut kept: Vec<StagedFile> = Vec::new();
        let mut found = false;
        let mut i: usize = 0;
        while i < self.files.len()
            invariant
                i <= self.files@.len(),
                s == self@,
                kept@.map_values(|f: StagedFile| (f.path@, f.digest@)) == without_path(
                    s.take(i as int),
                    path@,
                ),
                found == has_digest(without_path(s.take(i as int), path@), digest@),
            decreases self.files@.len() - i,
        {
            let ghost before = kept@;
            assert(s.take(i + 1).drop_last() =~= s.take(i as int));
            assert(s.take(i + 1).last() == s[i as int]);
            if self.files[i].path != path {
                let f = StagedFile {
                    path: self.files[i].path.clone(),
                    digest: self.files[i].digest.clone(),
                };
                if f.digest == digest {
                    found = true;
                }
                kept.push(f);
                proof {
                    let k = kept@.map_values(|f: StagedFile| (f.path@, f.digest@));
                    let b = before.map_values(|f: StagedFile| (f.path@, f.digest@));
                    assert(k =~= b.push(s[i as int]));
                    if has_digest(b, digest@) {
                        let j = choose|j: int| 0 <= j < b.len() && (#[trigger] b[j]).1 == digest@;
                        assert(k[j] == b[j]);
                    }
                    if has_digest(k, digest@) && !has_digest(b, digest@) {
                        let j = choose|j: int| 0 <= j < k.len() && (#[trigger] k[j]).1 == digest@;
                        if j < b.len() {
                            assert(k[j] == b[j]);
                        }
                    }
                    if s[i as int].1 == digest@ {
                        assert(k[b.len() as int] == s[i as int]);
                    }
                }
            }
            i = i + 1;
        }
        assert(s.take(i as int) =~= s);
        let ghost kv = kept@.map_values(|f: StagedFile| (f.path@, f.digest@));
        proof {
            lemma_without_path_props(s, path@);
        }
        if !found {
            kept.push(StagedFile { path, digest });
            proof {
                let k = kept@.map_values(|f: StagedFile| (f.path@, f.digest@));
                assert(k =~= kv.push((path@, digest@)));
                assert forall|i: int, j: int|
                    0 <= i < j < k.len() implies (#[trigger] k[i]).0 != (#[trigger] k[j]).0 && k[i].1
                    != k[j].1 by {
                    if j == k.len() - 1 {
                        assert(k[i] == kv[i]);
                        assert(kv[i].0 != path@);
                        if kv[i].1 == digest@ {
                            assert(has_digest(kv, digest@));
                        }
                    } else {
                        assert(k[i] == kv[i] && k[j] == kv[j]);
                    }
                }
            }
        }
        self.files = kept;
    }

    /// The staged digests, oldest first: the form in which the index is kept.
    pub fn digests(&self) -> (r: Vec<String>)
        ensures
            r@.len() == self@.len(),
            forall|i: int| 0 <= i < r@.len() ==> (#[trigger] r@[i])@ == self@[i].1,
    {
        let mut r: Vec<String> = Vec::new();
        let mut i: usize = 0;
        while i < self.files.len()
            invariant
                i <= self.files@.len(),
                r@.len() == i,
                forall|k: int| 0 <= k < i ==> (#[trigger] r@[k])@ == self@[k].1,
            decreases self.files@.len() - i,
        {
            r.push(self.files[i].digest.clone());
            i = i + 1;
        }
        r
    }
}

/// Staging one path twice leaves exactly one entry for it: the second.
pub proof fn law_stage_twice(
    s: Seq<(Seq<char>, Seq<char>)>,
    p: Seq<char>,
    d1: Seq<char>,
    d2: Seq<char>,
)
    requires
        index_wf(s),
        !has_digest(without_path(s, p), d2),
    ensures
        with_path(staged_after(staged_after(s, p, d1), p, d2), p) == seq![(p, d2)],
{
    let s1 = staged_after(s, p, d1);
    lemma_without_path_props(s, p);
    lemma_without_path_props(s1, p);
    let k1 = without_path(s1, p);
    // entries of s1 other than p's are those of s
    assert(without_path(s1, p) == without_path(s, p)) by {
        lemma_without_path_idem(s, p);
        if !has_digest(without_path(s, p), d1) {
            assert(without_path(s, p).push((p, d1)).drop_last() =~= without_path(s, p));
        }
    }
    lemma_with_path_push(k1, (p, d2), p);
    assert(seq![(p, d2)] =~= Seq::<(Seq<char>, Seq<char>)>::empty().push((p, d2)));
}

proof fn lemma_without_path_idem(s: Seq<(Seq<char>, Seq<char>)>, p: Seq<char>)
    ensures
        without_path(without_path(s, p), p) == without_path(s, p),
    decreases s.len(),
{
    if s.len() > 0 {
        lemma_without_path_idem(s.drop_last(), p);
        let prev = without_path(s.drop_last(), p);
        if s.last().0 != p {
            assert(prev.push(s.last()).drop_last() =~= prev);
        }
    }
}

/// The index that a list of staged digests stands for: each digest whose
/// object is a stored blob is staged for the path recorded in it, in order.
pub open spec fn index_from(store: Map<Seq<char>, Seq<char>>, ds: Seq<Seq<char>>) -> Seq<
    (Seq<char>, Seq<char>),
>
    decreases ds.len(),
{
    if ds.len() == 0 {
        Seq::empty()
    } else {
        let prev = index_from(store, ds.drop_last());
        let d = ds.last();
        if store.contains_key(d) && blob_path(store[d]) is Some {
            staged_after(prev, blob_path(store[d]).unwrap(), d)
        } else {
            prev
        }
    }
}

impl StagingIndex {
    /// Rebuilds the index from its kept digests, reading each blob's path
    /// from the store. Digests whose object is missing or no blob are dropped.
    pub fn load(store: &ObjectStore, ds: &Vec<String>) -> (r: StagingIndex)
        requires
            store.wf(),
        ensures
            r@ == index_from(store@, ds@.map_values(|d: String| d@)),
            index_wf(r@),
    {
        let ghost dv = ds@.map_values(|d: String| d@);
        let mut r = StagingIndex::new();
        let mut i: usize = 0;
        while i < ds.len()
            invariant
                i <= ds@.len(),
                store.wf(),
                dv == ds@.map_values(|d: String| d@),
                r@ == index_from(store@, dv.take(i as int)),
                index_wf(r@),
            decreases ds@.len() - i,
        {
            assert(dv.take(i + 1).drop_last() =~= dv.take(i as int));
            assert(dv.take(i + 1).last() == ds@[i as int]@);
            match store.get(&ds[i]) {
                Ok(text) => {
                    match parse_blob(text.as_str()) {
                        Some((_c, p)) => {
                            proof {
                                lemma_blob_path(text@, _c@, p@);
                            }
                            r.stage(p, ds[i].clone());
                        },
                        None => {
                            assert(blob_path(text@) is None) by {
                                if exists|p: Seq<char>| is_blob_path(text@, p) {
                                    let p = choose|p: Seq<char>| is_blob_path(text@, p);
                                    let c = choose|c: Seq<char>| is_blob_of(text@, c, p);
                                }
                            }
                        },
                    }
                },
                Err(_) => {},
            }
            i = i + 1;
        }
        assert(dv.take(i as int) =~= dv);
        r
    }

    /// Writes the blob of `content` read from `path` into the store and
    /// stages it for that path; returns the blob's digest.
    pub fn stage_file(&mut self, store: &mut ObjectStore, path: String, content: &str) -> (r: String)
        requires
            old(store).wf(),
            index_wf(old(self)@),
        ensures
            final(store).wf(),
            r@ == sha1_hex(blob_text(content@, path@)),
            final(store)@ == old(store)@.insert(r@, blob_text(content@, path@)),
            final(self)@ == staged_after(old(self)@, path@, r@),
            index_wf(final(self)@),
    {
        let text = blob_object(content, path.as_str());
        let d = store.put(text);
        self.stage(path, d.clone());
        d
    }
}

} // verus!
