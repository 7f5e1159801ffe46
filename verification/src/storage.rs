//! The ordered range repository: the abstract storage contract behind a set.

use vstd::prelude::*;

use crate::element::Element;

pub mod element_set;
pub mod pair_map;

verus! {

/// Whether some run of `s` contains the integer `x`. The runs are inclusive
/// `(start, end)` pairs.
pub open spec fn seq_contains(s: Seq<(int, int)>, x: int) -> bool {
    exists|i: int| 0 <= i < s.len() && (#[trigger] s[i]).0 <= x <= s[i].1
}

/// The runs are non-empty and ascending: every run ends strictly before the
/// next one begins.
pub open spec fn ranges_ordered(s: Seq<(int, int)>) -> bool {
    &&& forall|i: int| 0 <= i < s.len() ==> (#[trigger] s[i]).0 <= s[i].1
    &&& forall|i: int| 0 < i < s.len() ==> (#[trigger] s[i]).0 > s[i - 1].1
}

/// The runs are non-empty, ascending and separated: at least one value that
/// belongs to neither lies between consecutive runs. This is the coalescing
/// invariant a set maintains.
pub open spec fn ranges_separated(s: Seq<(int, int)>) -> bool {
    &&& forall|i: int| 0 <= i < s.len() ==> (#[trigger] s[i]).0 <= s[i].1
    &&& forall|i: int| 0 < i < s.len() ==> (#[trigger] s[i]).0 > s[i - 1].1 + 1
}

/// Every run lies between the domain's extremes.
pub open spec fn ranges_bounded<T: crate::set::Element>(s: Seq<(int, int)>) -> bool {
    forall|i: int| 0 <= i < s.len() ==> T::min_v() <= (#[trigger] s[i]).0 && s[i].1 <= T::max_v()
}

/// The runs that a sequence of `(start, end)` bound pairs stands for, as
/// inclusive integer pairs.
pub open spec fn pairs_view<T: crate::set::Element>(s: Seq<(T, T)>) -> Seq<(int, int)> {
    s.map(|i: int, p: (T, T)| (p.0.v(), p.1.v()))
}

/// `i` indexes the run of `s` with the greatest start strictly below `x`.
pub open spec fn is_prev_idx(s: Seq<(int, int)>, x: int, i: int) -> bool {
    0 <= i < s.len() && s[i].0 < x && (i + 1 < s.len() ==> s[i + 1].0 >= x)
}

/// `i` indexes the run of `s` with the least start at or above `x`.
pub open spec fn is_next_idx(s: Seq<(int, int)>, x: int, i: int) -> bool {
    0 <= i < s.len() && s[i].0 >= x && (i > 0 ==> s[i - 1].0 < x)
}

/// Separated runs are in particular ordered.
pub proof fn lemma_separated_ordered(s: Seq<(int, int)>)
    requires
        ranges_separated(s),
    ensures
        ranges_ordered(s),
{
}

/// In an ordered sequence, every earlier run ends strictly before a later
/// one begins.
pub proof fn lemma_ordered_apart(s: Seq<(int, int)>, i: int, j: int)
    requires
        ranges_ordered(s),
        0 <= i < j < s.len(),
    ensures
        s[i].1 < s[j].0,
    decreases j - i,
{
    if i + 1 < j {
        lemma_ordered_apart(s, i + 1, j);
    }
}

/// An integer is covered by at most one run of an ordered sequence.
pub proof fn lemma_ordered_unique_cover(s: Seq<(int, int)>, x: int, i: int, j: int)
    requires
        ranges_ordered(s),
        0 <= i < s.len(),
        0 <= j < s.len(),
        s[i].0 <= x <= s[i].1,
        s[j].0 <= x <= s[j].1,
    ensures
        i == j,
{
    if i < j {
        lemma_ordered_apart(s, i, j);
    }
    if j < i {
        lemma_ordered_apart(s, j, i);
    }
}

/// Inserting a run anywhere adds exactly its members to the covered set.
pub proof fn lemma_insert_contains(s: Seq<(int, int)>, k: int, r: (int, int), x: int)
    requires
        0 <= k <= s.len(),
    ensures
        seq_contains(s.insert(k, r), x) == (seq_contains(s, x) || (r.0 <= x <= r.1)),
{
    let t = s.insert(k, r);
    if seq_contains(t, x) {
        let i = choose|i: int| 0 <= i < t.len() && (#[trigger] t[i]).0 <= x <= t[i].1;
        if i < k {
            assert(s[i].0 <= x <= s[i].1);
        } else if i == k {
            assert(r.0 <= x <= r.1);
        } else {
            assert(s[i - 1].0 <= x <= s[i - 1].1);
        }
    }
    if seq_contains(s, x) {
        let i = choose|i: int| 0 <= i < s.len() && (#[trigger] s[i]).0 <= x <= s[i].1;
        if i < k {
            assert(t[i].0 <= x <= t[i].1);
        } else {
            assert(t[i + 1].0 <= x <= t[i + 1].1);
        }
    }
    if r.0 <= x <= r.1 {
        assert(t[k].0 <= x <= t[k].1);
    }
}

/// Appending a run adds exactly its members to the covered set.
pub proof fn lemma_push_contains(s: Seq<(int, int)>, r: (int, int), x: int)
    ensures
        seq_contains(s.push(r), x) == (seq_contains(s, x) || (r.0 <= x <= r.1)),
{
    assert(s.push(r) =~= s.insert(s.len() as int, r));
    lemma_insert_contains(s, s.len() as int, r, x);
}

/// Removing a run from an ordered sequence removes exactly its members from
/// the covered set.
pub proof fn lemma_remove_contains(s: Seq<(int, int)>, i: int, x: int)
    requires
        ranges_ordered(s),
        0 <= i < s.len(),
    ensures
        seq_contains(s.remove(i), x) == (seq_contains(s, x) && !(s[i].0 <= x <= s[i].1)),
{
    let t = s.remove(i);
    if seq_contains(t, x) {
        let j = choose|j: int| 0 <= j < t.len() && (#[trigger] t[j]).0 <= x <= t[j].1;
        if j < i {
            assert(s[j].0 <= x <= s[j].1);
            lemma_ordered_unique_cover(s, x, j, j);
            if s[i].0 <= x <= s[i].1 {
                lemma_ordered_unique_cover(s, x, j, i);
            }
        } else {
            assert(s[j + 1].0 <= x <= s[j + 1].1);
            if s[i].0 <= x <= s[i].1 {
                lemma_ordered_unique_cover(s, x, j + 1, i);
            }
        }
    }
    if seq_contains(s, x) && !(s[i].0 <= x <= s[i].1) {
        let j = choose|j: int| 0 <= j < s.len() && (#[trigger] s[j]).0 <= x <= s[j].1;
        if j < i {
            assert(t[j].0 <= x <= t[j].1);
        } else {
            assert(t[j - 1].0 <= x <= t[j - 1].1);
        }
    }
}

/// Removing a run keeps the remaining runs ordered.
pub proof fn lemma_remove_ordered(s: Seq<(int, int)>, i: int)
    requires
        ranges_ordered(s),
        0 <= i < s.len(),
    ensures
        ranges_ordered(s.remove(i)),
{
    let t = s.remove(i);
    assert forall|j: int| 0 < j < t.len() implies (#[trigger] t[j]).0 > t[j - 1].1 by {
        if j < i {
            assert(t[j] == s[j]);
        } else if j == i {
            assert(t[j] == s[j + 1]);
            assert(t[j - 1] == s[j - 1]);
            assert(s[j + 1].0 > s[j].1);
            assert(s[j].1 >= s[j].0);
            assert(s[j].0 > s[j - 1].1);
        } else {
            assert(t[j] == s[j + 1]);
            assert(t[j - 1] == s[j]);
        }
    }
}

/// Removing a run keeps the remaining runs inside the domain's bounds.
pub proof fn lemma_remove_bounded<T: crate::set::Element>(s: Seq<(int, int)>, i: int)
    requires
        ranges_bounded::<T>(s),
        0 <= i < s.len(),
    ensures
        ranges_bounded::<T>(s.remove(i)),
{
    let t = s.remove(i);
    assert forall|j: int|
        0 <= j < t.len() implies T::min_v() <= (#[trigger] t[j]).0 && t[j].1 <= T::max_v() by {
        if j < i {
            assert(t[j] == s[j]);
        } else {
            assert(t[j] == s[j + 1]);
        }
    }
}

/// Removing a run keeps the remaining runs separated.
pub proof fn lemma_remove_separated(s: Seq<(int, int)>, i: int)
    requires
        ranges_separated(s),
        0 <= i < s.len(),
    ensures
        ranges_separated(s.remove(i)),
{
    let t = s.remove(i);
    assert forall|j: int| 0 < j < t.len() implies (#[trigger] t[j]).0 > t[j - 1].1 + 1 by {
        if j < i {
            assert(t[j] == s[j]);
        } else if j == i {
            assert(t[j] == s[j + 1]);
            assert(t[j - 1] == s[j - 1]);
            assert(s[j + 1].0 > s[j].1 + 1);
            assert(s[j].1 >= s[j].0);
            assert(s[j].0 > s[j - 1].1 + 1);
        } else {
            assert(t[j] == s[j + 1]);
            assert(t[j - 1] == s[j]);
        }
    }
}

/// The ordered range repository contract. A realization stores disjoint
/// inclusive runs of domain values ordered by their start, and resolves the
/// predecessor/successor queries that coalescing insertion needs. The
/// mathematical content of a repository is `ranges()`, the stored runs as
/// ascending inclusive integer pairs.
pub trait Storage<T: crate::set::Element>: Sized {
    /// The stored runs as inclusive `(start, end)` integer pairs, ascending.
    spec fn ranges(&self) -> Seq<(int, int)>;

    /// The realization's internal invariant.
    spec fn inv(&self) -> bool;

    /// The invariant keeps the stored runs ascending, disjoint and inside
    /// the domain's bounds.
    proof fn inv_properties(&self)
        requires
            self.inv(),
        ensures
            ranges_ordered(self.ranges()),
            ranges_bounded::<T>(self.ranges()),
    ;

    /// An empty repository.
    fn new() -> (s: Self)
        ensures
            s.inv(),
            s.ranges() == Seq::<(int, int)>::empty(),
    ;

    /// Whether some stored run contains `value`.
    fn contains(&self, value: &T) -> (r: bool)
        requires
            self.inv(),
        ensures
            r == seq_contains(self.ranges(), value.v()),
    ;

    /// The stored run with the greatest start strictly below `value`, if any.
    fn prev_range(&self, value: &T) -> (r: Option<Element<T>>)
        requires
            self.inv(),
        ensures
            match r {
                None => forall|i: int|
                    0 <= i < self.ranges().len() ==> (#[trigger] self.ranges()[i]).0 >= value.v(),
                Some(e) => e.wf() && exists|i: int|
                    #![auto]
                    is_prev_idx(self.ranges(), value.v(), i) && self.ranges()[i] == (
                        e.start_v(),
                        e.end_v(),
                    ),
            },
    ;

    /// The stored run with the least start at or above `value`, if any.
    fn next_range(&self, value: &T) -> (r: Option<Element<T>>)
        requires
            self.inv(),
        ensures
            match r {
                None => forall|i: int|
                    0 <= i < self.ranges().len() ==> (#[trigger] self.ranges()[i]).0 < value.v(),
                Some(e) => e.wf() && exists|i: int|
                    #![auto]
                    is_next_idx(self.ranges(), value.v(), i) && self.ranges()[i] == (
                        e.start_v(),
                        e.end_v(),
                    ),
            },
    ;

    /// Remove and return the previous run iff it ends immediately below
    /// `value`; otherwise leave the repository untouched.
    fn take_prev_adjacent(&mut self, value: &T) -> (r: Option<Element<T>>)
        requires
            old(self).inv(),
        ensures
            final(self).inv(),
            match r {
                None => final(self).ranges() == old(self).ranges() && forall|i: int|
                    #[trigger] is_prev_idx(old(self).ranges(), value.v(), i) ==> old(
                        self,
                    ).ranges()[i].1 + 1 != value.v(),
                Some(e) => e.wf() && e.end_v() + 1 == value.v() && exists|i: int|
                    #![auto]
                    is_prev_idx(old(self).ranges(), value.v(), i) && old(self).ranges()[i] == (
                        e.start_v(),
                        e.end_v(),
                    ) && final(self).ranges() == old(self).ranges().remove(i),
            },
    ;

    /// Remove and return the next run iff it starts immediately above
    /// `value`; otherwise leave the repository untouched.
    fn take_next_adjacent(&mut self, value: &T) -> (r: Option<Element<T>>)
        requires
            old(self).inv(),
        ensures
            final(self).inv(),
            match r {
                None => final(self).ranges() == old(self).ranges() && forall|i: int|
                    #[trigger] is_next_idx(old(self).ranges(), value.v(), i) ==> old(
                        self,
                    ).ranges()[i].0 != value.v() + 1,
                Some(e) => e.wf() && e.start_v() == value.v() + 1 && exists|i: int|
                    #![auto]
                    is_next_idx(old(self).ranges(), value.v(), i) && old(self).ranges()[i] == (
                        e.start_v(),
                        e.end_v(),
                    ) && final(self).ranges() == old(self).ranges().remove(i),
            },
    ;

    /// Insert a run that overlaps no stored run. Inserting a colliding run
    /// is a caller contract violation, so it is ruled out here rather than
    /// signalled at run time.
    fn insert_range(&mut self, range: Element<T>)
        requires
            old(self).inv(),
            range.wf(),
            forall|i: int|
                0 <= i < old(self).ranges().len() ==> ((#[trigger] old(self).ranges()[i]).1
                    < range.start_v() || old(self).ranges()[i].0 > range.end_v()),
        ensures
            final(self).inv(),
            exists|k: int|
                #![auto]
                0 <= k <= old(self).ranges().len() && final(self).ranges() == old(
                    self,
                ).ranges().insert(k, (range.start_v(), range.end_v())),
    ;

    /// Export the stored runs as `(start, end)` bound pairs, ascending.
    fn to_pairs(&self) -> (r: Vec<(T, T)>)
        requires
            self.inv(),
        ensures
            r@.len() == self.ranges().len(),
            forall|i: int|
                0 <= i < r@.len() ==> ((#[trigger] r@[i]).0.v(), r@[i].1.v())
                    == self.ranges()[i],
    ;
}

} // verus!
