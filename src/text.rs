//! Character-level helpers: splitting text at a separator and cutting
//! pieces out of it.

use vstd::prelude::*;
use vstd::string::StrSliceExecFns;
use vstd::string::StringExecFns;

verus! {

broadcast use vstd::string::group_string_axioms;

/// The pieces of `s` between occurrences of `sep`, read from the left:
/// `a\nb\n` splits at `\n` into `a`, `b` and an empty last piece.
pub open spec fn split(s: Seq<char>, sep: char) -> Seq<Seq<char>>
    decreases s.len(),
{
    if s.len() == 0 {
        seq![Seq::<char>::empty()]
    } else {
        let prev = split(s.drop_last(), sep);
        if s.last() == sep {
            prev.push(Seq::<char>::empty())
        } else {
            prev.update(prev.len() - 1, prev.last().push(s.last()))
        }
    }
}

/// Whether `c` occurs in `s`.
pub open spec fn has_char(s: Seq<char>, c: char) -> bool {
    exists|i: int| 0 <= i < s.len() && s[i] == c
}

pub proof fn lemma_split_nonempty(s: Seq<char>, sep: char)
    ensures
        split(s, sep).len() >= 1,
    decreases s.len(),
{
    if s.len() > 0 {
        lemma_split_nonempty(s.drop_last(), sep);
    }
}

/// The characters of `s`, in order.
pub fn chars_of(s: &str) -> (r: Vec<char>)
    ensures
        r@ == s@,
{
    let mut r: Vec<char> = Vec::new();
    let mut it = s.chars();
    for c in iter: it
        invariant
            iter.seq() == s@,
            r@ == iter.seq().take(iter.index() as int),
    {
        r.push(c);
        assert(r@ =~= iter.seq().take(iter.index() + 1));
    }
    assert(r@ =~= s@);
    r
}

/// The characters of `s` from `from` up to `to`, as a new string.
pub fn slice_of(s: &str, from: usize, to: usize) -> (r: String)
    requires
        from <= to <= s@.len(),
    ensures
        r@ == s@.subrange(from as int, to as int),
{
    String::from_str(s.substring_char(from, to))
}

/// The bounds of the pieces of `s` between occurrences of `sep`.
pub fn split_bounds(s: &Vec<char>, sep: char) -> (r: Vec<(usize, usize)>)
    ensures
        r@.len() == split(s@, sep).len(),
        forall|i: int| 0 <= i < r@.len() ==> #[trigger] r@[i].0 <= r@[i].1 <= s@.len(),
        forall|i: int|
            0 <= i < r@.len() ==> s@.subrange(r@[i].0 as int, r@[i].1 as int) == #[trigger] split(
                s@,
                sep,
            )[i],
{
    let mut r: Vec<(usize, usize)> = Vec::new();
    let mut start: usize = 0;
    let mut i: usize = 0;
    while i < s.len()
        invariant
            start <= i <= s@.len(),
            r@.len() + 1 == split(s@.take(i as int), sep).len(),
            split(s@.take(i as int), sep).last() == s@.subrange(start as int, i as int),
            forall|k: int| 0 <= k < r@.len() ==> #[trigger] r@[k].0 <= r@[k].1 <= i,
            forall|k: int|
                0 <= k < r@.len() ==> s@.subrange(r@[k].0 as int, r@[k].1 as int) == #[trigger] split(
                    s@.take(i as int),
                    sep,
                )[k],
        decreases s@.len() - i,
    {
        proof {
            lemma_split_nonempty(s@.take(i as int), sep);
        }
        let ghost prev = split(s@.take(i as int), sep);
        let ghost old_r = r@;
        let ghost old_start = start;
        let ghost old_i = i;
        let is_sep = s[i] == sep;
        if is_sep {
            r.push((start, i));
            start = i + 1;
        }
        i = i + 1;
        proof {
            let next = split(s@.take(i as int), sep);
            assert(s@.take(i as int).drop_last() =~= s@.take(old_i as int));
            assert(s@.take(i as int).last() == s@[old_i as int]);
            if is_sep {
                assert(s@.subrange(start as int, i as int) =~= Seq::<char>::empty());
                assert(next == prev.push(Seq::<char>::empty()));
            } else {
                assert(s@.subrange(start as int, i as int) =~= s@.subrange(
                    start as int,
                    old_i as int,
                ).push(s@[old_i as int]));
                assert(next == prev.update(prev.len() - 1, prev.last().push(s@[old_i as int])));
            }
            assert forall|k: int| 0 <= k < r@.len() implies {
                &&& r@[k].0 <= r@[k].1 <= i
                &&& s@.subrange(r@[k].0 as int, r@[k].1 as int) == #[trigger] split(
                    s@.take(i as int),
                    sep,
                )[k]
            } by {
                assert(next[k] == prev[k]);
                if k < old_r.len() {
                    assert(r@[k] == old_r[k]);
                } else {
                    assert(r@[k] == (old_start, old_i));
                }
            }
        }
    }
    assert(s@.take(s@.len() as int) =~= s@);
    proof {
        lemma_split_nonempty(s@, sep);
    }
    let ghost before = r@;
    r.push((start, i));
    assert forall|k: int| 0 <= k < r@.len() implies {
        &&& r@[k].0 <= r@[k].1 <= s@.len()
        &&& s@.subrange(r@[k].0 as int, r@[k].1 as int) == #[trigger] split(s@, sep)[k]
    } by {
        assert(split(s@.take(i as int), sep)[k] == split(s@, sep)[k]);
        if k < before.len() {
            assert(r@[k] == before[k]);
        }
    }
    r
}

} // verus!
