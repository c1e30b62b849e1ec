//! The object store: immutable texts addressed by their digests.

use vstd::prelude::*;
use crate::digest::{digest_of, is_hex_digest, sha1_hex};
use crate::error::PitError;
use vstd::string::StringExecFns;

verus! {

/// One stored object: its digest and its text.
#[derive(Debug)]
pub struct StoredObject {
    pub digest: String,
    pub text: String,
}

/// Every object written so far, each under the digest of its own text.
pub struct ObjectStore {
    objects: Vec<StoredObject>,
}

impl ObjectStore {
    /// The stored objects as (digest, text) pairs, in the order they came.
    pub closed spec fn entries(&self) -> Seq<(Seq<char>, Seq<char>)> {
        self.objects@.map_values(|o: StoredObject| (o.digest@, o.text@))
    }

    /// Each object sits under the digest of its own text, forty lowercase
    /// hexadecimal digits, and no digest twice.
    pub open spec fn wf(&self) -> bool {
        &&& forall|i: int|
            0 <= i < self.entries().len() ==> (#[trigger] self.entries()[i]).0 == sha1_hex(
                self.entries()[i].1,
            )
        &&& forall|i: int| 0 <= i < self.entries().len() ==> is_hex_digest((#[trigger] self.entries()[i]).0)
        &&& forall|i: int, j: int|
            0 <= i < j < self.entries().len() ==> (#[trigger] self.entries()[i]).0
                != (#[trigger] self.entries()[j]).0
    }

    pub open spec fn holds(&self, d: Seq<char>) -> bool {
        exists|i: int| 0 <= i < self.entries().len() && (#[trigger] self.entries()[i]).0 == d
    }

    pub open spec fn position(&self, d: Seq<char>) -> int {
        choose|i: int| 0 <= i < self.entries().len() && (#[trigger] self.entries()[i]).0 == d
    }

    /// The store as a map from digest to text.
    pub open spec fn view(&self) -> Map<Seq<char>, Seq<char>> {
        Map::new(|d: Seq<char>| self.holds(d), |d: Seq<char>| self.entries()[self.position(d)].1)
    }

    /// Each stored pair is what the map gives for its digest.
    pub proof fn lemma_view_at(&self, i: int)
        requires
            self.wf(),
            0 <= i < self.entries().len(),
        ensures
            self@.contains_key(self.entries()[i].0),
            self@[self.entries()[i].0] == self.entries()[i].1,
    {
        let d = self.entries()[i].0;
        assert(self.holds(d));
        let j = self.position(d);
        if j < i {
            assert(self.entries()[j].0 != self.entries()[i].0);
        } else if i < j {
            assert(self.entries()[i].0 != self.entries()[j].0);
        }
    }

    /// Every text in the map sits under its own digest, forty hex digits.
    pub proof fn lemma_addressed(&self, d: Seq<char>)
        requires
            self.wf(),
            self@.contains_key(d),
        ensures
            d == sha1_hex(self@[d]),
            is_hex_digest(d),
    {
        let j = self.position(d);
        self.lemma_view_at(j);
    }

    /// The map holds no more digests than there are stored objects.
    pub proof fn lemma_dom_bound(&self)
        ensures
            self@.dom().finite(),
            self@.dom().len() <= self.entries().len(),
    {
        let keys = self.entries().map_values(|e: (Seq<char>, Seq<char>)| e.0);
        assert forall|d: Seq<char>| self@.dom().contains(d) <==> keys.to_set().contains(d) by {
            if self.holds(d) {
                let j = self.position(d);
                assert(keys[j] == d);
            }
            if keys.to_set().contains(d) {
                let j = choose|j: int| 0 <= j < keys.len() && keys[j] == d;
                assert(self.entries()[j].0 == d);
            }
        }
        assert(self@.dom() =~= keys.to_set());
        keys.lemma_cardinality_of_set();
        vstd::seq_lib::seq_to_set_is_finite(keys);
    }

    /// An empty store.
    pub fn new() -> (r: ObjectStore)
        ensures
            r.wf(),
            r@ == Map::<Seq<char>, Seq<char>>::empty(),
    {
        let r = ObjectStore { objects: Vec::new() };
        assert(r@ =~= Map::<Seq<char>, Seq<char>>::empty());
        r
    }

    /// The number of stored objects.
    pub fn len(&self) -> (r: usize)
        ensures
            r == self.entries().len(),
    {
        self.objects.len()
    }

    fn find(&self, d: &String) -> (r: Option<usize>)
        requires
            self.wf(),
        ensures
            r matches Some(i) ==> i < self.entries().len() && self.entries()[i as int].0 == d@,
            r is None ==> !self@.contains_key(d@),
    {
        let mut i: usize = 0;
        while i < self.objects.len()
            invariant
                i <= self.objects@.len(),
                forall|k: int| 0 <= k < i ==> (#[trigger] self.entries()[k]).0 != d@,
            decreases self.objects@.len() - i,
        {
            if self.objects[i].digest == *d {
                return Some(i);
            }
            i = i + 1;
        }
        None
    }

    /// Whether an object is stored under `d`.
    pub fn contains(&self, d: &String) -> (r: bool)
        requires
            self.wf(),
        ensures
            r == self@.contains_key(d@),
    {
        match self.find(d) {
            Some(i) => {
                proof {
                    self.lemma_view_at(i as int);
                }
                true
            },
            None => false,
        }
    }

    /// Stores `text` under its digest and returns the digest. Writing a
    /// text that is already there changes nothing.
    pub fn put(&mut self, text: String) -> (r: String)
        requires
            old(self).wf(),
        ensures
            final(self).wf(),
            r@ == sha1_hex(text@),
            is_hex_digest(r@),
            final(self)@ == old(self)@.insert(r@, text@),
    {
        let d = digest_of(text.as_str());
        let ghost t = text@;
        match self.find(&d) {
            Some(i) => {
                let ghost before = self.entries();
                self.objects.set(i, StoredObject { digest: d.clone(), text });
                assert(self.entries() =~= before.update(i as int, (d@, t)));
                proof {
                    self.lemma_view_at(i as int);
                    assert forall|k: Seq<char>| #[trigger] self@.contains_key(k) == old(self)@.insert(d@, t).contains_key(k) by {
                        if old(self).holds(k) {
                            let j = old(self).position(k);
                            assert(self.entries()[j].0 == k);
                        }
                        if self.holds(k) {
                            let j = self.position(k);
                            assert(old(self).entries()[j].0 == k || j == i);
                        }
                    }
                    assert forall|k: Seq<char>| #[trigger] self@.contains_key(k) && k != d@ implies self@[k] == old(self)@[k] by {
                        let j = self.position(k);
                        assert(j != i);
                        assert(old(self).entries()[j].0 == k);
                        old(self).lemma_view_at(j);
                        self.lemma_view_at(j);
                    }
                }
                assert(self@ =~= old(self)@.insert(d@, t));
            },
            None => {
                let ghost before = self.entries();
                self.objects.push(StoredObject { digest: d.clone(), text });
                assert(self.entries() =~= before.push((d@, t)));
                proof {
                    let n = before.len() as int;
                    assert forall|i: int| 0 <= i < n implies (#[trigger] before[i]).0 != d@ by {
                        old(self).lemma_view_at(i);
                    }
                    self.lemma_view_at(n);
                    assert forall|k: Seq<char>| #[trigger] self@.contains_key(k) == old(self)@.insert(d@, t).contains_key(k) by {
                        if old(self).holds(k) {
                            let j = old(self).position(k);
                            assert(self.entries()[j].0 == k);
                        }
                        if self.holds(k) {
                            let j = self.position(k);
                            assert(old(self).entries()[j].0 == k || j == n);
                        }
                    }
                    assert forall|k: Seq<char>| #[trigger] self@.contains_key(k) && k != d@ implies self@[k] == old(self)@[k] by {
                        let j = self.position(k);
                        assert(j != n);
                        assert(old(self).entries()[j].0 == k);
                        old(self).lemma_view_at(j);
                        self.lemma_view_at(j);
                    }
                }
                assert(self@ =~= old(self)@.insert(d@, t));
            },
        }
        d
    }

    /// The text stored under `d`; `NotFound` when there is none.
    pub fn get(&self, d: &String) -> (r: Result<String, PitError>)
        requires
            self.wf(),
        ensures
            r matches Ok(t) ==> self@.contains_key(d@) && t@ == self@[d@],
            r is Err ==> !self@.contains_key(d@) && r == Err::<String, PitError>(PitError::NotFound),
    {
        match self.find(d) {
            Some(i) => {
                proof {
                    self.lemma_view_at(i as int);
                }
                Ok(self.objects[i].text.clone())
            },
            None => Err(PitError::NotFound),
        }
    }

    /// The digests of all stored objects, in the order they came.
    pub fn digests(&self) -> (r: Vec<String>)
        ensures
            r@.len() == self.entries().len(),
            forall|i: int| 0 <= i < r@.len() ==> (#[trigger] r@[i])@ == self.entries()[i].0,
    {
        let mut r: Vec<String> = Vec::new();
        let mut i: usize = 0;
        while i < self.objects.len()
            invariant
                i <= self.objects@.len(),
                r@.len() == i,
                forall|k: int| 0 <= k < i ==> (#[trigger] r@[k])@ == self.entries()[k].0,
            decreases self.objects@.len() - i,
        {
            r.push(self.objects[i].digest.clone());
            i = i + 1;
        }
        r
    }
}

/// Reading back what was just written gives the written text.
pub proof fn law_put_then_get(before: Map<Seq<char>, Seq<char>>, text: Seq<char>)
    ensures
        before.insert(sha1_hex(text), text).contains_key(sha1_hex(text)),
        before.insert(sha1_hex(text), text)[sha1_hex(text)] == text,
{
}

} // verus!
