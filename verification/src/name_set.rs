//! Sets of variable names held in a `Vec<String>` in strictly increasing order.
use vstd::prelude::*;

use crate::text::{lemma_text_lt_irreflexive, lemma_text_lt_total, lemma_text_lt_transitive, text_lt, text_lt_exec};

verus! {

/// The names held in `v`, as a set.
pub open spec fn names_of(v: Seq<String>) -> Set<Seq<char>> {
    Set::new(|s: Seq<char>| exists|i: int| 0 <= i < v.len() && #[trigger] v[i]@ == s)
}

/// The names of `v` are in strictly increasing order.
pub open spec fn sorted_names(v: Seq<String>) -> bool {
    forall|i: int, j: int| 0 <= i < j < v.len() ==> text_lt(#[trigger] v[i]@, #[trigger] v[j]@)
}

/// No name occurs twice in a sorted list.
pub proof fn lemma_sorted_distinct(v: Seq<String>)
    requires
        sorted_names(v),
    ensures
        forall|i: int, j: int| 0 <= i < j < v.len() ==> #[trigger] v[i]@ != #[trigger] v[j]@,
{
    assert forall|i: int, j: int| 0 <= i < j < v.len() implies #[trigger] v[i]@ != #[trigger] v[j]@ by {
        lemma_text_lt_irreflexive(v[i]@);
        assert(text_lt(v[i]@, v[j]@));
    }
}

/// Pushing a name adds it to the set.
pub proof fn lemma_names_push(v: Seq<String>, x: String)
    ensures
        names_of(v.push(x)) == names_of(v).insert(x@),
{
    let w = v.push(x);
    assert forall|s: Seq<char>| names_of(w).contains(s) implies names_of(v).insert(x@).contains(s) by {
        let k = choose|k: int| 0 <= k < w.len() && #[trigger] w[k]@ == s;
        if k < v.len() {
            assert(v[k]@ == s);
        }
    }
    assert forall|s: Seq<char>| names_of(v).insert(x@).contains(s) implies names_of(w).contains(s) by {
        if s == x@ {
            assert(w[v.len() as int]@ == s);
        } else {
            let k = choose|k: int| 0 <= k < v.len() && #[trigger] v[k]@ == s;
            assert(w[k]@ == s);
        }
    }
    assert(names_of(w) =~= names_of(v).insert(x@));
}

/// The first `i + 1` names are the first `i` names and name `i`.
pub proof fn lemma_names_prefix(v: Seq<String>, i: int)
    requires
        0 <= i < v.len(),
    ensures
        names_of(v.subrange(0, i + 1)) == names_of(v.subrange(0, i)).insert(v[i]@),
{
    assert(v.subrange(0, i + 1) =~= v.subrange(0, i).push(v[i]));
    lemma_names_push(v.subrange(0, i), v[i]);
}

/// Whether `x` is in the set held by `v`.
pub fn contains_name(v: &Vec<String>, x: &String) -> (res: bool)
    ensures
        res == names_of(v@).contains(x@),
{
    let mut i: usize = 0;
    while i < v.len()
        invariant
            i <= v@.len(),
            forall|j: int| 0 <= j < i ==> #[trigger] v@[j]@ != x@,
        decreases v@.len() - i,
    {
        if v[i] == *x {
            assert(v@[i as int]@ == x@);
            return true;
        }
        i += 1;
    }
    proof {
        if names_of(v@).contains(x@) {
            let k = choose|k: int| 0 <= k < v@.len() && #[trigger] v@[k]@ == x@;
            assert(v@[k]@ != x@);
        }
    }
    false
}

/// Adds `x` to the set held by `v`, at its place in the order.
pub fn insert_name(v: &mut Vec<String>, x: String)
    requires
        sorted_names(old(v)@),
    ensures
        sorted_names(final(v)@),
        names_of(final(v)@) == names_of(old(v)@).insert(x@),
{
    if contains_name(v, &x) {
        assert(names_of(v@) =~= names_of(v@).insert(x@));
        return;
    }
    let ghost before = v@;
    let mut p: usize = 0;
    while p < v.len() && !text_lt_exec(x.as_str(), v[p].as_str())
        invariant
            p <= v@.len(),
            v@ == before,
            !names_of(before).contains(x@),
            forall|k: int| 0 <= k < p ==> text_lt(#[trigger] before[k]@, x@),
        decreases v@.len() - p,
    {
        proof {
            assert(before[p as int]@ != x@);
            lemma_text_lt_total(before[p as int]@, x@);
        }
        p += 1;
    }
    proof {
        assert forall|s: Seq<char>| names_of(before.insert(p as int, x)).contains(s) <==> names_of(before).insert(x@).contains(s) by {
            let w = before.insert(p as int, x);
            if names_of(w).contains(s) {
                let k = choose|k: int| 0 <= k < w.len() && #[trigger] w[k]@ == s;
                if k < p {
                    assert(before[k]@ == s);
                } else if k > p {
                    assert(before[k - 1]@ == s);
                }
            }
            if names_of(before).contains(s) {
                let k = choose|k: int| 0 <= k < before.len() && #[trigger] before[k]@ == s;
                if k < p {
                    assert(w[k]@ == s);
                } else {
                    assert(w[k + 1]@ == s);
                }
            }
            if s == x@ {
                assert(w[p as int]@ == s);
            }
        }
    }
    v.insert(p, x);
    proof {
        assert(names_of(v@) =~= names_of(before).insert(x@));
        assert forall|i: int, j: int| 0 <= i < j < v@.len() implies text_lt(#[trigger] v@[i]@, #[trigger] v@[j]@) by {
            if j < p {
                assert(text_lt(before[i]@, before[j]@));
            } else if j == p {
                assert(text_lt(before[i]@, x@));
            } else if i > p {
                assert(text_lt(before[i - 1]@, before[j - 1]@));
            } else if i == p {
                // x comes before before[p] (the loop stopped there), which is at or before before[j - 1]
                assert(text_lt(x@, before[p as int]@));
                if j - 1 > p {
                    assert(text_lt(before[p as int]@, before[j - 1]@));
                    lemma_text_lt_transitive(x@, before[p as int]@, before[j - 1]@);
                }
            } else {
                assert(text_lt(before[i]@, x@));
                assert(text_lt(x@, before[p as int]@));
                lemma_text_lt_transitive(before[i]@, x@, before[p as int]@);
                if j - 1 > p {
                    assert(text_lt(before[p as int]@, before[j - 1]@));
                    lemma_text_lt_transitive(before[i]@, before[p as int]@, before[j - 1]@);
                }
            }
        }
    }
}

/// Adds every name of `src` to the set held by `dst`.
pub fn insert_names(dst: &mut Vec<String>, src: &Vec<String>)
    requires
        sorted_names(old(dst)@),
    ensures
        sorted_names(final(dst)@),
        names_of(final(dst)@) == names_of(old(dst)@).union(names_of(src@)),
{
    let ghost start = dst@;
    let mut i: usize = 0;
    assert(names_of(src@.subrange(0, 0)) =~= Set::empty());
    assert(names_of(start).union(Set::empty()) =~= names_of(start));
    while i < src.len()
        invariant
            i <= src@.len(),
            sorted_names(dst@),
            names_of(dst@) == names_of(start).union(names_of(src@.subrange(0, i as int))),
        decreases src@.len() - i,
    {
        proof {
            lemma_names_prefix(src@, i as int);
        }
        insert_name(dst, src[i].clone());
        assert(names_of(dst@) =~= names_of(start).union(names_of(src@.subrange(0, i + 1))));
        i += 1;
    }
    assert(src@.subrange(0, src@.len() as int) =~= src@);
}

/// Removes `x` from the set held by `v`.
pub fn remove_name(v: &mut Vec<String>, x: &String)
    requires
        sorted_names(old(v)@),
    ensures
        sorted_names(final(v)@),
        names_of(final(v)@) == names_of(old(v)@).remove(x@),
{
    let mut r: Vec<String> = Vec::new();
    let mut i: usize = 0;
    while i < v.len()
        invariant
            i <= v@.len(),
            sorted_names(v@),
            sorted_names(r@),
            forall|k: int| 0 <= k < r@.len() ==> exists|j: int| 0 <= j < i && #[trigger] v@[j]@ == #[trigger] r@[k]@,
            forall|k: int, j: int| 0 <= k < r@.len() && i <= j < v@.len() ==> text_lt(#[trigger] r@[k]@, #[trigger] v@[j]@),
            forall|k: int| 0 <= k < r@.len() ==> #[trigger] r@[k]@ != x@,
            forall|j: int| 0 <= j < i && #[trigger] v@[j]@ != x@ ==> names_of(r@).contains(v@[j]@),
        decreases v@.len() - i,
    {
        if v[i] != *x {
            let ghost before = r@;
            proof {
                lemma_names_push(before, v@[i as int]);
            }
            r.push(v[i].clone());
            proof {
                assert forall|a: int, b: int| 0 <= a < b < r@.len() implies text_lt(#[trigger] r@[a]@, #[trigger] r@[b]@) by {
                    if b == before.len() {
                        assert(text_lt(before[a]@, v@[i as int]@));
                    }
                }
                assert forall|k: int| 0 <= k < r@.len() implies exists|j: int| 0 <= j < i + 1 && #[trigger] v@[j]@ == #[trigger] r@[k]@ by {
                    if k == before.len() {
                        assert(v@[i as int]@ == r@[k]@);
                    } else {
                        let j = choose|j: int| 0 <= j < i && #[trigger] v@[j]@ == before[k]@;
                        assert(v@[j]@ == r@[k]@);
                    }
                }
                assert forall|k: int, j: int| 0 <= k < r@.len() && i + 1 <= j < v@.len() implies text_lt(#[trigger] r@[k]@, #[trigger] v@[j]@) by {
                    if k == before.len() {
                        assert(text_lt(v@[i as int]@, v@[j]@));
                    }
                }
            }
        } else {
            proof {
                assert forall|k: int, j: int| 0 <= k < r@.len() && i + 1 <= j < v@.len() implies text_lt(#[trigger] r@[k]@, #[trigger] v@[j]@) by {
                    assert(text_lt(r@[k]@, v@[j]@));
                }
            }
        }
        i += 1;
    }
    proof {
        assert forall|s: Seq<char>| names_of(r@).contains(s) implies names_of(v@).remove(x@).contains(s) by {
            let k = choose|k: int| 0 <= k < r@.len() && #[trigger] r@[k]@ == s;
            let j = choose|j: int| 0 <= j < v@.len() && #[trigger] v@[j]@ == r@[k]@;
            assert(names_of(v@).contains(v@[j]@));
        }
        assert forall|s: Seq<char>| names_of(v@).remove(x@).contains(s) implies names_of(r@).contains(s) by {
            let j = choose|j: int| 0 <= j < v@.len() && #[trigger] v@[j]@ == s;
            assert(v@[j]@ != x@);
        }
        assert(names_of(r@) =~= names_of(v@).remove(x@));
    }
    *v = r;
}

} // verus!
