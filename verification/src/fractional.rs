//! A multi-set of names in which a member may occur a fractional number of times.
use vstd::prelude::*;

use crate::rational::{reduced, value_le, value_lt, Rational};

verus! {

/// No two entries share a key.
pub open spec fn keys_unique(s: Seq<(String, Rational)>) -> bool {
    forall|i: int, j: int| 0 <= i < j < s.len() ==> s[i].0@ != s[j].0@
}

/// Some entry has the key `k`.
pub open spec fn has_key(s: Seq<(String, Rational)>, k: Seq<char>) -> bool {
    exists|i: int| 0 <= i < s.len() && #[trigger] s[i].0@ == k
}

/// The map from each key of `s` to its amount.
pub open spec fn entries_map(s: Seq<(String, Rational)>) -> Map<Seq<char>, Rational> {
    Map::new(
        |k: Seq<char>| has_key(s, k),
        |k: Seq<char>| s[choose|i: int| 0 <= i < s.len() && #[trigger] s[i].0@ == k].1,
    )
}

/// Every amount of `m` is `a` at most the corresponding amount of `b`, and `m`'s
/// members are members of `b`.
pub open spec fn pointwise_le(a: Map<Seq<char>, Rational>, b: Map<Seq<char>, Rational>) -> bool {
    forall|k: Seq<char>| #[trigger]
        a.dom().contains(k) ==> b.dom().contains(k) && value_le(a[k], b[k])
}

/// `a` is a strict sub-multi-set of `b`: contained in it and smaller somewhere.
pub open spec fn strict_submultiset(a: Map<Seq<char>, Rational>, b: Map<Seq<char>, Rational>) -> bool {
    &&& pointwise_le(a, b)
    &&& ((exists|k: Seq<char>| #[trigger] a.dom().contains(k) && value_lt(a[k], b[k])) || (exists|
        k: Seq<char>,
    | #[trigger] b.dom().contains(k) && !a.dom().contains(k)))
}

/// The multi-set of members common to `a` and `b`, each with the smaller amount
/// (that of `a` when the amounts are equal as fractions).
pub open spec fn intersection(a: Map<Seq<char>, Rational>, b: Map<Seq<char>, Rational>) -> Map<
    Seq<char>,
    Rational,
> {
    Map::new(
        |k: Seq<char>| a.dom().contains(k) && b.dom().contains(k),
        |k: Seq<char>|
            if value_le(a[k], b[k]) {
                a[k]
            } else {
                b[k]
            },
    )
}

/// A multi-set whose members occur a positive fractional number of times.
#[derive(Clone, Debug)]
pub struct FractionalMultiSet {
    pub entries: Vec<(String, Rational)>,
}

impl View for FractionalMultiSet {
    type V = Map<Seq<char>, Rational>;

    open spec fn view(&self) -> Map<Seq<char>, Rational> {
        entries_map(self.entries@)
    }
}

/// The entry at `i` gives the amount of its key.
proof fn lemma_entry_in_map(s: Seq<(String, Rational)>, i: int)
    requires
        keys_unique(s),
        0 <= i < s.len(),
    ensures
        entries_map(s).dom().contains(s[i].0@),
        entries_map(s)[s[i].0@] == s[i].1,
{
    let k = s[i].0@;
    assert(has_key(s, k));
    let j = choose|j: int| 0 <= j < s.len() && #[trigger] s[j].0@ == k;
    if j != i {
        if j < i {
            assert(s[j].0@ != s[i].0@);
        } else {
            assert(s[i].0@ != s[j].0@);
        }
    }
}

impl FractionalMultiSet {
    /// Well formed: keys are unique and every amount is positive.
    pub open spec fn wf(&self) -> bool {
        &&& keys_unique(self.entries@)
        &&& forall|i: int|
            0 <= i < self.entries@.len() ==> #[trigger] self.entries@[i].1.0 > 0
                && self.entries@[i].1.1 > 0
    }

    /// The empty multi-set.
    pub fn new() -> (res: Self)
        ensures
            res.wf(),
            res@ == Map::<Seq<char>, Rational>::empty(),
    {
        let res = Self { entries: Vec::new() };
        assert(res@ =~= Map::<Seq<char>, Rational>::empty());
        res
    }

    /// The index of the entry of `e`, if any.
    fn find(&self, e: &String) -> (res: Option<usize>)
        requires
            self.wf(),
        ensures
            res matches Some(i) ==> i < self.entries@.len() && self.entries@[i as int].0@ == e@,
            res is None ==> !self@.dom().contains(e@),
    {
        let mut i: usize = 0;
        while i < self.entries.len()
            invariant
                i <= self.entries@.len(),
                forall|j: int| 0 <= j < i ==> #[trigger] self.entries@[j].0@ != e@,
            decreases self.entries@.len() - i,
        {
            if self.entries[i].0 == *e {
                return Some(i);
            }
            i += 1;
        }
        None
    }

    /// Whether `e` is a member.
    pub fn contains(&self, e: &String) -> (res: bool)
        requires
            self.wf(),
        ensures
            res == self@.dom().contains(e@),
    {
        match self.find(e) {
            Some(i) => {
                proof {
                    lemma_entry_in_map(self.entries@, i as int);
                }
                true
            },
            None => false,
        }
    }

    /// Whether `self` is a strict sub-multi-set of `other`.
    pub fn subset(&self, other: &Self) -> (res: bool)
        requires
            self.wf(),
            other.wf(),
        ensures
            res == strict_submultiset(self@, other@),
    {
        let mut better = false;
        let mut i: usize = 0;
        while i < self.entries.len()
            invariant
                self.wf(),
                other.wf(),
                i <= self.entries@.len(),
                forall|j: int|
                    #![trigger self.entries@[j]]
                    0 <= j < i ==> other@.dom().contains(self.entries@[j].0@) && value_le(
                        self.entries@[j].1,
                        other@[self.entries@[j].0@],
                    ),
                better == exists|j: int|
                    0 <= j < i && #[trigger] value_lt(
                        self.entries@[j].1,
                        other@[self.entries@[j].0@],
                    ),
            decreases self.entries@.len() - i,
        {
            let entry = &self.entries[i];
            proof {
                lemma_entry_in_map(self.entries@, i as int);
            }
            match other.find(&entry.0) {
                Some(o) => {
                    proof {
                        lemma_entry_in_map(other.entries@, o as int);
                    }
                    let amount = entry.1;
                    let other_amount = other.entries[o].1;
                    if other_amount.lt(amount) {
                        return false;
                    }
                    let is_less = amount.lt(other_amount);
                    let ghost old_better = better;
                    if is_less {
                        better = true;
                    }
                    proof {
                        let key = self.entries@[i as int].0@;
                        assert(other@[key] == other_amount);
                        assert(other@.dom().contains(key));
                        assert(value_le(self.entries@[i as int].1, other@[key]));
                        if is_less {
                            assert(value_lt(self.entries@[i as int].1, other@[key]));
                        } else {
                            assert(!value_lt(self.entries@[i as int].1, other@[key]));
                            if exists|j: int|
                                0 <= j < i + 1 && #[trigger] value_lt(
                                    self.entries@[j].1,
                                    other@[self.entries@[j].0@],
                                ) {
                                let j = choose|j: int|
                                    0 <= j < i + 1 && #[trigger] value_lt(
                                        self.entries@[j].1,
                                        other@[self.entries@[j].0@],
                                    );
                                assert(j != i);
                                assert(old_better);
                            }
                        }
                    }
                },
                None => {
                    return false;
                },
            }
            i += 1;
        }
        proof {
            assert forall|k: Seq<char>| #[trigger] self@.dom().contains(k) implies other@.dom().contains(
                k,
            ) && value_le(self@[k], other@[k]) by {
                let j = choose|j: int| 0 <= j < self.entries@.len() && #[trigger] self.entries@[j].0@ == k;
                lemma_entry_in_map(self.entries@, j);
            }
            if better {
                let j = choose|j: int|
                    0 <= j < i && #[trigger] value_lt(
                        self.entries@[j].1,
                        other@[self.entries@[j].0@],
                    );
                lemma_entry_in_map(self.entries@, j);
                assert(self@.dom().contains(self.entries@[j].0@));
            } else {
                assert forall|k: Seq<char>| #[trigger]
                    self@.dom().contains(k) implies !value_lt(self@[k], other@[k]) by {
                    let j = choose|j: int|
                        0 <= j < self.entries@.len() && #[trigger] self.entries@[j].0@ == k;
                    lemma_entry_in_map(self.entries@, j);
                }
            }
        }
        if better {
            return true;
        }
        let mut j: usize = 0;
        while j < other.entries.len()
            invariant
                self.wf(),
                other.wf(),
                j <= other.entries@.len(),
                pointwise_le(self@, other@),
                forall|m: int| 0 <= m < j ==> self@.dom().contains(#[trigger] other.entries@[m].0@),
            decreases other.entries@.len() - j,
        {
            if !self.contains(&other.entries[j].0) {
                proof {
                    lemma_entry_in_map(other.entries@, j as int);
                }
                return true;
            }
            j += 1;
        }
        proof {
            assert forall|k: Seq<char>| #[trigger]
                other@.dom().contains(k) implies self@.dom().contains(k) by {
                let m = choose|m: int|
                    0 <= m < other.entries@.len() && #[trigger] other.entries@[m].0@ == k;
            }
        }
        false
    }

    /// The members common to `self` and `other`, each with the smaller amount.
    pub fn intersect(self, other: &Self) -> (res: Self)
        requires
            self.wf(),
            other.wf(),
        ensures
            res.wf(),
            res@ == intersection(self@, other@),
    {
        let mut new_entries: Vec<(String, Rational)> = Vec::new();
        let ghost mine = self.entries@;
        let mut i: usize = 0;
        while i < self.entries.len()
            invariant
                self.wf(),
                other.wf(),
                mine == self.entries@,
                i <= self.entries@.len(),
                keys_unique(new_entries@),
                forall|m: int|
                    0 <= m < new_entries@.len() ==> #[trigger] new_entries@[m].1.0 > 0
                        && new_entries@[m].1.1 > 0,
                forall|m: int|
                    0 <= m < new_entries@.len() ==> exists|j: int|
                        0 <= j < i && #[trigger] mine[j].0@ == (#[trigger] new_entries@[m]).0@,
                forall|k: Seq<char>| #[trigger]
                    entries_map(new_entries@).dom().contains(k) <==> (exists|j: int|
                        0 <= j < i && #[trigger] mine[j].0@ == k) && other@.dom().contains(k),
                forall|k: Seq<char>| #[trigger]
                    entries_map(new_entries@).dom().contains(k) ==> entries_map(new_entries@)[k]
                        == intersection(self@, other@)[k],
            decreases self.entries@.len() - i,
        {
            proof {
                lemma_entry_in_map(self.entries@, i as int);
            }
            let key = self.entries[i].0.clone();
            let amount = self.entries[i].1;
            match other.find(&key) {
                Some(o) => {
                    proof {
                        lemma_entry_in_map(other.entries@, o as int);
                    }
                    let m = amount.min(other.entries[o].1);
                    let ghost before = new_entries@;
                    new_entries.push((key, m));
                    proof {
                        assert forall|a: int, b: int|
                            0 <= a < b < new_entries@.len() implies new_entries@[a].0@
                            != new_entries@[b].0@ by {
                            if b == new_entries@.len() - 1 && a < b {
                                let j = choose|j: int|
                                    0 <= j < i && #[trigger] mine[j].0@ == (#[trigger] before[a]).0@;
                                assert(before[a] == new_entries@[a]);
                                assert(mine[j].0@ != mine[i as int].0@);
                            }
                        }
                        assert forall|k: Seq<char>| #[trigger]
                            entries_map(new_entries@).dom().contains(k) implies entries_map(
                                new_entries@,
                            )[k] == intersection(self@, other@)[k] by {
                            let n = choose|n: int|
                                0 <= n < new_entries@.len() && #[trigger] new_entries@[n].0@
                                    == k;
                            lemma_entry_in_map(new_entries@, n);
                            if n < before.len() {
                                assert(before[n] == new_entries@[n]);
                                lemma_entry_in_map(before, n);
                                assert(entries_map(before).dom().contains(k));
                            }
                        }
                        assert forall|k: Seq<char>| #[trigger]
                            entries_map(new_entries@).dom().contains(k) <==> (exists|j: int|
                                0 <= j < i + 1 && #[trigger] mine[j].0@ == k) && other@.dom().contains(
                                k,
                            ) by {
                            if entries_map(new_entries@).dom().contains(k) {
                                let n = choose|n: int|
                                    0 <= n < new_entries@.len() && #[trigger] new_entries@[n].0@
                                        == k;
                                if n < before.len() {
                                    assert(before[n] == new_entries@[n]);
                                    assert(has_key(before, k));
                                    assert(entries_map(before).dom().contains(k));
                                } else {
                                    assert(mine[i as int].0@ == k);
                                }
                            }
                            if (exists|j: int| 0 <= j < i + 1 && #[trigger] mine[j].0@ == k)
                                && other@.dom().contains(k) {
                                let j = choose|j: int| 0 <= j < i + 1 && #[trigger] mine[j].0@ == k;
                                if j < i {
                                    assert(entries_map(before).dom().contains(k));
                                    let n = choose|n: int|
                                        0 <= n < before.len() && #[trigger] before[n].0@ == k;
                                    assert(new_entries@[n] == before[n]);
                                } else {
                                    assert(new_entries@[new_entries@.len() - 1].0@ == k);
                                }
                            }
                        }
                        assert forall|m: int|
                            0 <= m < new_entries@.len() implies exists|j: int|
                                0 <= j < i + 1 && #[trigger] mine[j].0@ == (
                                #[trigger] new_entries@[m]).0@ by {
                            if m < before.len() {
                                assert(new_entries@[m] == before[m]);
                            } else {
                                assert(mine[i as int].0@ == new_entries@[m].0@);
                            }
                        }
                    }
                },
                None => {
                    proof {
                        assert forall|k: Seq<char>| #[trigger]
                            entries_map(new_entries@).dom().contains(k) <==> (exists|j: int|
                                0 <= j < i + 1 && #[trigger] mine[j].0@ == k) && other@.dom().contains(
                                k,
                            ) by {
                            if (exists|j: int| 0 <= j < i + 1 && #[trigger] mine[j].0@ == k)
                                && other@.dom().contains(k) {
                                let j = choose|j: int| 0 <= j < i + 1 && #[trigger] mine[j].0@ == k;
                                if j == i {
                                    assert(false);
                                }
                            }
                        }
                    }
                },
            }
            i += 1;
        }
        let res = Self { entries: new_entries };
        proof {
            assert forall|k: Seq<char>|
                res@.dom().contains(k) <==> intersection(self@, other@).dom().contains(k) by {
                if self@.dom().contains(k) {
                    let j = choose|j: int| 0 <= j < mine.len() && #[trigger] mine[j].0@ == k;
                    assert(mine[j].0@ == k);
                }
            }
            assert(res@ =~= intersection(self@, other@));
        }
        res
    }

    /// Adds one whole occurrence of `e` (the amount of a new member is 1).
    pub fn insert(&mut self, e: String)
        requires
            old(self).wf(),
            old(self)@.dom().contains(e@) ==> old(self)@[e@].0 < u32::MAX,
        ensures
            final(self).wf(),
            final(self)@ == (if old(self)@.dom().contains(e@) {
                old(self)@.insert(
                    e@,
                    reduced((old(self)@[e@].0 + 1) as nat, old(self)@[e@].1 as nat),
                )
            } else {
                old(self)@.insert(e@, Rational(1, 1))
            }),
    {
        match self.find(&e) {
            Some(i) => {
                proof {
                    lemma_entry_in_map(self.entries@, i as int);
                }
                let val = self.entries[i].1;
                let nv = Rational::new(val.num() + 1, val.den());
                self.set_amount(i, nv);
            },
            None => {
                self.push_new(e, Rational::one());
            },
        }
    }

    /// Adds `e`; when it is already a member its denominator grows by one
    /// (the amount of a new member is 1).
    pub fn insert_frac(&mut self, e: String)
        requires
            old(self).wf(),
            old(self)@.dom().contains(e@) ==> old(self)@[e@].1 < u32::MAX,
        ensures
            final(self).wf(),
            final(self)@ == (if old(self)@.dom().contains(e@) {
                old(self)@.insert(
                    e@,
                    reduced(old(self)@[e@].0 as nat, (old(self)@[e@].1 + 1) as nat),
                )
            } else {
                old(self)@.insert(e@, Rational(1, 1))
            }),
    {
        match self.find(&e) {
            Some(i) => {
                proof {
                    lemma_entry_in_map(self.entries@, i as int);
                }
                let val = self.entries[i].1;
                let nv = Rational::new(val.num(), val.den() + 1);
                self.set_amount(i, nv);
            },
            None => {
                self.push_new(e, Rational::one());
            },
        }
    }

    /// Replaces the amount of the entry at `i`.
    fn set_amount(&mut self, i: usize, r: Rational)
        requires
            old(self).wf(),
            i < old(self).entries@.len(),
            r.0 > 0 && r.1 > 0,
        ensures
            final(self).wf(),
            final(self)@ == old(self)@.insert(old(self).entries@[i as int].0@, r),
    {
        let ghost before = self.entries@;
        let key = self.entries[i].0.clone();
        self.entries.set(i, (key, r));
        proof {
            assert forall|a: int, b: int|
                0 <= a < b < self.entries@.len() implies self.entries@[a].0@
                != self.entries@[b].0@ by {
                assert(before[a].0@ != before[b].0@);
            }
            lemma_entry_in_map(self.entries@, i as int);
            assert forall|k: Seq<char>|
                self@.dom().contains(k) <==> old(self)@.insert(before[i as int].0@, r).dom().contains(
                    k,
                ) by {
                if has_key(before, k) {
                    let j = choose|j: int| 0 <= j < before.len() && #[trigger] before[j].0@ == k;
                    assert(self.entries@[j].0@ == k);
                }
                if has_key(self.entries@, k) {
                    let j = choose|j: int|
                        0 <= j < self.entries@.len() && #[trigger] self.entries@[j].0@ == k;
                    assert(before[j].0@ == k);
                }
            }
            assert forall|k: Seq<char>| #[trigger] self@.dom().contains(k) implies self@[k]
                == old(self)@.insert(before[i as int].0@, r)[k] by {
                let j = choose|j: int|
                    0 <= j < self.entries@.len() && #[trigger] self.entries@[j].0@ == k;
                lemma_entry_in_map(self.entries@, j);
                if j != i {
                    assert(before[j] == self.entries@[j]);
                    lemma_entry_in_map(before, j);
                }
            }
            assert(self@ =~= old(self)@.insert(before[i as int].0@, r));
        }
    }

    /// Appends a new member `e` with amount `r`.
    fn push_new(&mut self, e: String, r: Rational)
        requires
            old(self).wf(),
            !old(self)@.dom().contains(e@),
            r.0 > 0 && r.1 > 0,
        ensures
            final(self).wf(),
            final(self)@ == old(self)@.insert(e@, r),
    {
        let ghost before = self.entries@;
        let ghost key = e@;
        self.entries.push((e, r));
        proof {
            assert forall|a: int, b: int|
                0 <= a < b < self.entries@.len() implies self.entries@[a].0@
                != self.entries@[b].0@ by {
                if b == before.len() {
                    assert(self.entries@[a] == before[a]);
                    if before[a].0@ == key {
                        assert(has_key(before, key));
                    }
                }
            }
            lemma_entry_in_map(self.entries@, before.len() as int);
            assert forall|k: Seq<char>|
                self@.dom().contains(k) <==> old(self)@.insert(key, r).dom().contains(k) by {
                if has_key(before, k) {
                    let j = choose|j: int| 0 <= j < before.len() && #[trigger] before[j].0@ == k;
                    assert(self.entries@[j].0@ == k);
                }
                if has_key(self.entries@, k) && k != key {
                    let j = choose|j: int|
                        0 <= j < self.entries@.len() && #[trigger] self.entries@[j].0@ == k;
                    assert(before[j].0@ == k);
                }
            }
            assert forall|k: Seq<char>| #[trigger] self@.dom().contains(k) implies self@[k]
                == old(self)@.insert(key, r)[k] by {
                let j = choose|j: int|
                    0 <= j < self.entries@.len() && #[trigger] self.entries@[j].0@ == k;
                lemma_entry_in_map(self.entries@, j);
                if j < before.len() {
                    assert(before[j] == self.entries@[j]);
                    lemma_entry_in_map(before, j);
                }
            }
            assert(self@ =~= old(self)@.insert(key, r));
        }
    }

    /// Removes `e` entirely.
    pub fn remove_all(&mut self, e: &String)
        requires
            old(self).wf(),
        ensures
            final(self).wf(),
            final(self)@ == old(self)@.remove(e@),
    {
        match self.find(e) {
            Some(i) => {
                let ghost before = self.entries@;
                self.entries.remove(i);
                proof {
                    assert forall|a: int, b: int|
                        0 <= a < b < self.entries@.len() implies self.entries@[a].0@
                        != self.entries@[b].0@ by {
                        let a2 = if a < i { a } else { a + 1 };
                        let b2 = if b < i { b } else { b + 1 };
                        assert(before[a2].0@ != before[b2].0@);
                    }
                    assert forall|m: int|
                        0 <= m < self.entries@.len() implies #[trigger] self.entries@[m].1.0 > 0
                        && self.entries@[m].1.1 > 0 by {
                        let m2 = if m < i { m } else { m + 1 };
                        assert(self.entries@[m] == before[m2]);
                    }
                    assert forall|k: Seq<char>|
                        self@.dom().contains(k) <==> old(self)@.remove(e@).dom().contains(k) by {
                        if has_key(before, k) && k != e@ {
                            let j = choose|j: int| 0 <= j < before.len() && #[trigger] before[j].0@ == k;
                            let j2 = if j < i { j } else { j - 1 };
                            assert(self.entries@[j2].0@ == k);
                        }
                        if has_key(self.entries@, k) {
                            let j = choose|j: int|
                                0 <= j < self.entries@.len() && #[trigger] self.entries@[j].0@ == k;
                            let j2 = if j < i { j } else { j + 1 };
                            assert(before[j2].0@ == k);
                            assert(j2 != i ==> before[j2].0@ != before[i as int].0@);
                        }
                    }
                    assert forall|k: Seq<char>| #[trigger] self@.dom().contains(k) implies self@[k]
                        == old(self)@.remove(e@)[k] by {
                        let j = choose|j: int|
                            0 <= j < self.entries@.len() && #[trigger] self.entries@[j].0@ == k;
                        lemma_entry_in_map(self.entries@, j);
                        let j2 = if j < i { j } else { j + 1 };
                        assert(before[j2] == self.entries@[j]);
                        lemma_entry_in_map(before, j2);
                    }
                    assert(self@ =~= old(self)@.remove(e@));
                }
            },
            None => {
                assert(self@ =~= old(self)@.remove(e@));
            },
        }
    }
}

/// The intersection of two multi-sets lies within each of them.
pub proof fn law_intersection_within(a: Map<Seq<char>, Rational>, b: Map<Seq<char>, Rational>)
    ensures
        pointwise_le(intersection(a, b), a),
        pointwise_le(intersection(a, b), b),
{
}

} // verus!
