//! The public set type and the domain-value capability it builds on.

use vstd::prelude::*;

use crate::storage::{
    is_next_idx, is_prev_idx, lemma_insert_contains, lemma_ordered_apart, lemma_remove_contains,
    lemma_remove_ordered, lemma_remove_separated, lemma_separated_ordered, pairs_view,
    ranges_bounded, ranges_ordered, ranges_separated, seq_contains, Storage,
};

verus! {

/// A domain value: a cheaply copyable scalar drawn from a discretely ordered,
/// bounded domain. `v()` maps every value onto a mathematical integer;
/// successor and predecessor move one step along that line and are undefined
/// exactly at the domain's extremes.
pub trait Element: Sized + Copy {
    /// The mathematical integer this value stands for.
    spec fn v(self) -> int;

    /// The integer of the least representable value.
    spec fn min_v() -> int;

    /// The integer of the greatest representable value.
    spec fn max_v() -> int;

    /// Every value lies between the domain's extremes.
    proof fn v_in_bounds(self)
        ensures
            Self::min_v() <= self.v() <= Self::max_v(),
    ;

    /// Two values with the same integer are the same value.
    proof fn v_injective(self, other: Self)
        requires
            self.v() == other.v(),
        ensures
            self == other,
    ;

    /// The total order on values, through their integers.
    fn le(self, other: Self) -> (r: bool)
        ensures
            r == (self.v() <= other.v()),
    ;

    /// The next representable value, or `None` exactly at the maximum.
    fn next(self) -> (r: Option<Self>)
        ensures
            match r {
                Some(n) => self.v() < Self::max_v() && n.v() == self.v() + 1,
                None => self.v() == Self::max_v(),
            },
    ;

    /// The previous representable value, or `None` exactly at the minimum.
    fn prev(self) -> (r: Option<Self>)
        ensures
            match r {
                Some(p) => self.v() > Self::min_v() && p.v() == self.v() - 1,
                None => self.v() == Self::min_v(),
            },
    ;
}

impl Element for u32 {
    open spec fn v(self) -> int {
        self as int
    }

    open spec fn min_v() -> int {
        0
    }

    open spec fn max_v() -> int {
        u32::MAX as int
    }

    proof fn v_in_bounds(self) {
    }

    proof fn v_injective(self, other: Self) {
    }

    fn le(self, other: Self) -> (r: bool) {
        self <= other
    }

    fn next(self) -> (r: Option<Self>) {
        if self == u32::MAX {
            None
        } else {
            Some(self + 1)
        }
    }

    fn prev(self) -> (r: Option<Self>) {
        if self == 0 {
            None
        } else {
            Some(self - 1)
        }
    }
}

impl Element for i32 {
    open spec fn v(self) -> int {
        self as int
    }

    open spec fn min_v() -> int {
        i32::MIN as int
    }

    open spec fn max_v() -> int {
        i32::MAX as int
    }

    proof fn v_in_bounds(self) {
    }

    proof fn v_injective(self, other: Self) {
    }

    fn le(self, other: Self) -> (r: bool) {
        self <= other
    }

    fn next(self) -> (r: Option<Self>) {
        if self == i32::MAX {
            None
        } else {
            Some(self + 1)
        }
    }

    fn prev(self) -> (r: Option<Self>) {
        if self == i32::MIN {
            None
        } else {
            Some(self - 1)
        }
    }
}

/// Every run of `s` clears the span `[lo, hi]` with a margin: it ends with
/// a gap below `lo` or begins with a gap above `hi`.
spec fn margin_ok(s: Seq<(int, int)>, lo: int, hi: int) -> bool {
    forall|i: int| 0 <= i < s.len() ==> ((#[trigger] s[i]).1 + 1 < lo || s[i].0 > hi + 1)
}

/// Inserting a span that every run clears with a margin, at the position
/// that keeps the runs ordered, keeps them separated.
proof fn lemma_insert_into_separated(s: Seq<(int, int)>, k: int, lo: int, hi: int)
    requires
        ranges_separated(s),
        lo <= hi,
        margin_ok(s, lo, hi),
        0 <= k <= s.len(),
        ranges_ordered(s.insert(k, (lo, hi))),
    ensures
        ranges_separated(s.insert(k, (lo, hi))),
{
    let t = s.insert(k, (lo, hi));
    assert forall|j: int| 0 <= j < t.len() implies (#[trigger] t[j]).0 <= t[j].1 by {
        if j < k {
            assert(t[j] == s[j]);
        } else if j > k {
            assert(t[j] == s[j - 1]);
        }
    }
    assert forall|j: int| 0 < j < t.len() implies (#[trigger] t[j]).0 > t[j - 1].1 + 1 by {
        if j < k {
            assert(t[j] == s[j] && t[j - 1] == s[j - 1]);
        } else if j == k {
            assert(t[j] == (lo, hi) && t[j - 1] == s[k - 1]);
            assert(t[j].0 > t[j - 1].1);
            assert(s[k - 1].1 + 1 < lo || s[k - 1].0 > hi + 1);
            assert(s[k - 1].0 <= s[k - 1].1);
        } else if j == k + 1 {
            assert(t[j] == s[k] && t[j - 1] == (lo, hi));
            assert(t[j].0 > t[j - 1].1);
            assert(s[k].1 + 1 < lo || s[k].0 > hi + 1);
            assert(s[k].0 <= s[k].1);
        } else {
            assert(t[j] == s[j - 1] && t[j - 1] == s[j - 2]);
        }
    }
}

/// When no run of an ordered sequence ends immediately below `v` and none
/// contains `v`, every run that begins below `v` also ends with a gap
/// below `v`.
proof fn lemma_no_prev_adjacent_margin(s: Seq<(int, int)>, v: int)
    requires
        ranges_ordered(s),
        !seq_contains(s, v),
        forall|i: int| #[trigger] is_prev_idx(s, v, i) ==> s[i].1 + 1 != v,
    ensures
        forall|i: int| 0 <= i < s.len() && (#[trigger] s[i]).0 < v ==> s[i].1 + 1 < v,
{
    assert forall|i: int| 0 <= i < s.len() && (#[trigger] s[i]).0 < v implies s[i].1 + 1 < v by {
        if s[i].1 >= v {
            assert(s[i].0 <= v <= s[i].1);
            assert(false);
        }
        if s[i].1 + 1 == v {
            assert(is_prev_idx(s, v, i));
            assert(false);
        }
    }
}

/// When no run of an ordered sequence starts immediately above `v` and none
/// contains `v`, every run that begins above `v` begins with a gap above
/// `v`.
proof fn lemma_no_next_adjacent_margin(s: Seq<(int, int)>, v: int)
    requires
        ranges_ordered(s),
        !seq_contains(s, v),
        forall|i: int| #[trigger] is_next_idx(s, v, i) ==> s[i].0 != v + 1,
    ensures
        forall|i: int| 0 <= i < s.len() && (#[trigger] s[i]).0 > v ==> s[i].0 > v + 1,
{
    assert forall|i: int| 0 <= i < s.len() && (#[trigger] s[i]).0 > v implies s[i].0 > v + 1 by {
        if s[i].0 == v + 1 {
            if i > 0 {
                assert(s[i - 1].1 < s[i].0);
                if s[i - 1].0 > v {
                    assert(s[i - 1].0 == v + 1 || s[i - 1].0 > v + 1);
                    assert(s[i - 1].0 <= s[i - 1].1);
                    assert(false);
                }
                if s[i - 1].0 == v {
                    assert(s[i - 1].0 <= v <= s[i - 1].1);
                    assert(false);
                }
            }
            assert(is_next_idx(s, v, i));
            assert(false);
        }
    }
}

/// Every later run of an ordered sequence starts at or above `v` when run
/// `ip` is the one with the greatest start below `v`.
proof fn lemma_prev_idx_bound(s: Seq<(int, int)>, v: int, ip: int, j: int)
    requires
        ranges_ordered(s),
        is_prev_idx(s, v, ip),
        ip < j < s.len(),
    ensures
        s[j].0 >= v,
{
    if j > ip + 1 {
        lemma_ordered_apart(s, ip + 1, j);
    }
}

/// Every earlier run of an ordered sequence starts below `v` when run `in_`
/// is the one with the least start at or above `v`.
proof fn lemma_next_idx_bound(s: Seq<(int, int)>, v: int, in_: int, j: int)
    requires
        ranges_ordered(s),
        is_next_idx(s, v, in_),
        0 <= j < in_,
    ensures
        s[j].0 < v,
{
    if j < in_ - 1 {
        lemma_ordered_apart(s, j, in_ - 1);
    }
}

/// The merge decision that insertion takes after probing both neighbouring
/// runs of the inserted value.
pub enum Operation<T> {
    /// Only the previous run is adjacent: extend its end up to the value.
    ExtendUpper(crate::element::Element<T>),
    /// Only the next run is adjacent: extend its start down to the value.
    ExtendLower(crate::element::Element<T>),
    /// Neither neighbour is adjacent: insert a fresh singleton run.
    Insert(T),
    /// Both neighbours are adjacent: fuse them into one spanning run.
    Merge(crate::element::Element<T>, crate::element::Element<T>),
}

/// A space-efficient set for mostly contiguous data: it stores maximal
/// contiguous runs instead of individual members and coalesces adjacent runs
/// eagerly on insertion. The backing repository is abstract; the ordered
/// vector of elements is the default realization.
#[derive(Debug)]
pub struct RangeSet<T: Element, S: Storage<T> = crate::storage::element_set::ElementSet<T>> {
    storage: S,
    _values: core::marker::PhantomData<T>,
}

impl<T: Element, S: Storage<T>> RangeSet<T, S> {
    /// The stored runs as ascending inclusive `(start, end)` integer pairs.
    pub closed spec fn ranges(&self) -> Seq<(int, int)> {
        self.storage.ranges()
    }

    /// Whether the set's members include the integer `x`.
    pub open spec fn contains_v(&self, x: int) -> bool {
        seq_contains(self.ranges(), x)
    }

    /// Well-formed: the repository invariant holds and no two stored runs
    /// are adjacent or overlapping.
    pub closed spec fn wf(&self) -> bool {
        self.storage.inv() && ranges_separated(self.ranges())
    }

    /// The stored runs of a well-formed set are separated and lie inside
    /// the domain's bounds.
    pub proof fn lemma_wf_ranges(&self)
        requires
            self.wf(),
        ensures
            ranges_separated(self.ranges()),
            ranges_bounded::<T>(self.ranges()),
    {
        self.storage.inv_properties();
    }

    /// An empty set.
    pub fn new() -> (s: Self)
        ensures
            s.wf(),
            s.ranges() == Seq::<(int, int)>::empty(),
    {
        RangeSet { storage: S::new(), _values: core::marker::PhantomData }
    }

    /// Check whether an element is contained within the set.
    pub fn contains(&self, value: &T) -> (r: bool)
        requires
            self.wf(),
        ensures
            r == self.contains_v(value.v()),
    {
        self.storage.contains(value)
    }

    /// Bulk-load a set after checking the pairs: `None` when the pairs do
    /// not form ascending, inclusive runs separated by at least one absent
    /// value.
    pub fn try_from_pairs(pairs: &Vec<(T, T)>) -> (r: Option<Self>)
        ensures
            r is Some <==> ((forall|i: int|
                0 <= i < pairs@.len() ==> (#[trigger] pairs@[i]).0.v() <= pairs@[i].1.v())
                && (forall|i: int|
                0 < i < pairs@.len() ==> (#[trigger] pairs@[i]).0.v() > pairs@[i - 1].1.v() + 1)),
            match r {
                Some(s) => s.wf() && s.ranges() == pairs_view(pairs@),
                None => true,
            },
    {
        let mut ok = true;
        let mut i: usize = 0;
        while i < pairs.len()
            invariant
                0 <= i <= pairs@.len(),
                ok == ((forall|j: int|
                    0 <= j < i ==> (#[trigger] pairs@[j]).0.v() <= pairs@[j].1.v()) && (forall|
                    j: int,
                |
                    0 < j < i ==> (#[trigger] pairs@[j]).0.v() > pairs@[j - 1].1.v() + 1)),
            decreases pairs@.len() - i,
        {
            let (a, b) = pairs[i];
            let ghost ok0 = ok;
            if !a.le(b) {
                ok = false;
            }
            if i > 0 {
                let previous_end = pairs[i - 1].1;
                let separated = match previous_end.next() {
                    Some(n) => !a.le(n),
                    None => {
                        proof {
                            a.v_in_bounds();
                        }
                        false
                    },
                };
                if !separated {
                    ok = false;
                }
            }
            i = i + 1;
            proof {
                if ok {
                    assert forall|j: int|
                        0 <= j < i implies (#[trigger] pairs@[j]).0.v() <= pairs@[j].1.v() by {}
                    assert forall|j: int|
                        0 < j < i implies (#[trigger] pairs@[j]).0.v() > pairs@[j - 1].1.v()
                        + 1 by {}
                } else if ok0 {
                    assert(!((pairs@[i - 1].0.v() <= pairs@[i - 1].1.v()) && (i - 1 > 0
                        ==> pairs@[i - 1].0.v() > pairs@[i - 2].1.v() + 1)));
                }
            }
        }
        if ok {
            Some(RangeSet::from_pairs(pairs))
        } else {
            None
        }
    }

    /// Insert a new element into the set, returning whether it was already
    /// present. The element's run is fused with any adjacent stored run, so
    /// the runs stay separated, and the member set grows by exactly this
    /// element.
    pub fn insert(&mut self, element: T) -> (was_present: bool)
        requires
            old(self).wf(),
        ensures
            final(self).wf(),
            was_present == old(self).contains_v(element.v()),
            was_present ==> final(self).ranges() == old(self).ranges(),
            forall|x: int|
                final(self).contains_v(x) == (old(self).contains_v(x) || x == element.v()),
    {
        let ghost s0 = self.storage.ranges();
        let ghost v = element.v();
        proof {
            self.storage.inv_properties();
        }
        if self.storage.contains(&element) {
            return true;
        }

        let prev = self.storage.take_prev_adjacent(&element);
        let ghost s1 = self.storage.ranges();
        let next = self.storage.take_next_adjacent(&element);

        let operation = match (prev, next) {
            (None, None) => Operation::Insert(element),
            (None, Some(next_range)) => Operation::ExtendLower(next_range),
            (Some(prev_range), None) => Operation::ExtendUpper(prev_range),
            (Some(prev_range), Some(next_range)) => Operation::Merge(prev_range, next_range),
        };

        match operation {
            Operation::Insert(e) => {
                self.apply_insert(e, Ghost(s0));
            },
            Operation::ExtendUpper(prev_range) => {
                let ghost ip = choose|i: int|
                    #![auto]
                    is_prev_idx(s0, v, i) && s0[i] == (prev_range.start_v(), prev_range.end_v())
                        && s1 == s0.remove(i);
                self.apply_extend_upper(element, prev_range, Ghost(s0), Ghost(ip));
            },
            Operation::ExtendLower(next_range) => {
                let ghost in1 = choose|i: int|
                    #![auto]
                    is_next_idx(s0, v, i) && s0[i] == (next_range.start_v(), next_range.end_v())
                        && self.storage.ranges() == s0.remove(i);
                self.apply_extend_lower(element, next_range, Ghost(s0), Ghost(in1));
            },
            Operation::Merge(prev_range, next_range) => {
                let ghost ip = choose|i: int|
                    #![auto]
                    is_prev_idx(s0, v, i) && s0[i] == (prev_range.start_v(), prev_range.end_v())
                        && s1 == s0.remove(i);
                let ghost in1 = choose|i: int|
                    #![auto]
                    is_next_idx(s1, v, i) && s1[i] == (next_range.start_v(), next_range.end_v())
                        && self.storage.ranges() == s1.remove(i);
                self.apply_merge(element, prev_range, next_range, Ghost(s0), Ghost(ip), Ghost(in1));
            },
        }
        false
    }

    /// Neither neighbouring run is adjacent: store the singleton run of the
    /// element.
    fn apply_insert(&mut self, element: T, Ghost(s0): Ghost<Seq<(int, int)>>)
        requires
            old(self).storage.inv(),
            old(self).storage.ranges() == s0,
            ranges_separated(s0),
            !seq_contains(s0, element.v()),
            forall|i: int| #[trigger] is_prev_idx(s0, element.v(), i) ==> s0[i].1 + 1 != element.v(),
            forall|i: int| #[trigger] is_next_idx(s0, element.v(), i) ==> s0[i].0 != element.v() + 1,
        ensures
            final(self).wf(),
            forall|x: int|
                seq_contains(final(self).ranges(), x) == (seq_contains(s0, x) || x == element.v()),
    {
        let ghost v = element.v();
        let singleton = crate::element::Element::from(element);
        proof {
            crate::element::Element::<T>::lemma_from_value(element);
            lemma_no_prev_adjacent_margin(s0, v);
            lemma_no_next_adjacent_margin(s0, v);
            assert forall|i: int|
                0 <= i < s0.len() implies ((#[trigger] s0[i]).1 + 1 < v || s0[i].0 > v + 1) by {
                if s0[i].0 == v {
                    assert(s0[i].0 <= v <= s0[i].1);
                    assert(false);
                }
            }
            assert(margin_ok(s0, v, v));
        }
        self.storage.insert_range(singleton);
        proof {
            self.storage.inv_properties();
            let sf = self.storage.ranges();
            let k = choose|k: int| #![auto] 0 <= k <= s0.len() && sf == s0.insert(k, (v, v));
            lemma_insert_into_separated(s0, k, v, v);
            assert forall|x: int| seq_contains(sf, x) == (seq_contains(s0, x) || x == v) by {
                lemma_insert_contains(s0, k, (v, v), x);
            }
        }
    }

    /// Only the previous run is adjacent: it has been taken out, extend its
    /// end up to the element and store it back.
    fn apply_extend_upper(
        &mut self,
        element: T,
        prev_range: crate::element::Element<T>,
        Ghost(s0): Ghost<Seq<(int, int)>>,
        Ghost(ip): Ghost<int>,
    )
        requires
            old(self).storage.inv(),
            old(self).storage.ranges() == s0.remove(ip),
            ranges_separated(s0),
            !seq_contains(s0, element.v()),
            is_prev_idx(s0, element.v(), ip),
            prev_range.wf(),
            prev_range.end_v() + 1 == element.v(),
            s0[ip] == (prev_range.start_v(), prev_range.end_v()),
            forall|i: int|
                #[trigger] is_next_idx(s0.remove(ip), element.v(), i) ==> s0.remove(ip)[i].0
                    != element.v() + 1,
        ensures
            final(self).wf(),
            forall|x: int|
                seq_contains(final(self).ranges(), x) == (seq_contains(s0, x) || x == element.v()),
    {
        let ghost v = element.v();
        let ghost s1 = s0.remove(ip);
        let ghost a = prev_range.start_v();
        let mut extended = prev_range;
        extended.extend_right_unchecked(element);
        proof {
            lemma_remove_ordered(s0, ip);
            lemma_remove_separated(s0, ip);
            lemma_remove_contains(s0, ip, v);
            lemma_no_next_adjacent_margin(s1, v);
            assert forall|m: int|
                0 <= m < s1.len() implies ((#[trigger] s1[m]).1 + 1 < a || s1[m].0 > v + 1) by {
                if m < ip {
                    assert(s1[m] == s0[m]);
                    if m < ip - 1 {
                        lemma_ordered_apart(s0, m, ip - 1);
                    }
                    assert(s0[ip].0 > s0[ip - 1].1 + 1);
                } else {
                    assert(s1[m] == s0[m + 1]);
                    lemma_prev_idx_bound(s0, v, ip, m + 1);
                    if s0[m + 1].0 == v {
                        assert(s0[m + 1].0 <= v <= s0[m + 1].1);
                        assert(false);
                    }
                }
            }
            assert(margin_ok(s1, a, v));
        }
        self.storage.insert_range(extended);
        proof {
            self.storage.inv_properties();
            let sf = self.storage.ranges();
            let k = choose|k: int| #![auto] 0 <= k <= s1.len() && sf == s1.insert(k, (a, v));
            lemma_insert_into_separated(s1, k, a, v);
            assert forall|x: int| seq_contains(sf, x) == (seq_contains(s0, x) || x == v) by {
                lemma_insert_contains(s1, k, (a, v), x);
                lemma_remove_contains(s0, ip, x);
                if a <= x <= v - 1 {
                    assert(s0[ip].0 <= x <= s0[ip].1);
                    assert(seq_contains(s0, x));
                }
            }
        }
    }

    /// Only the next run is adjacent: it has been taken out, extend its
    /// start down to the element and store it back.
    fn apply_extend_lower(
        &mut self,
        element: T,
        next_range: crate::element::Element<T>,
        Ghost(s0): Ghost<Seq<(int, int)>>,
        Ghost(in1): Ghost<int>,
    )
        requires
            old(self).storage.inv(),
            old(self).storage.ranges() == s0.remove(in1),
            ranges_separated(s0),
            !seq_contains(s0, element.v()),
            is_next_idx(s0, element.v(), in1),
            next_range.wf(),
            next_range.start_v() == element.v() + 1,
            s0[in1] == (next_range.start_v(), next_range.end_v()),
            forall|i: int| #[trigger] is_prev_idx(s0, element.v(), i) ==> s0[i].1 + 1 != element.v(),
        ensures
            final(self).wf(),
            forall|x: int|
                seq_contains(final(self).ranges(), x) == (seq_contains(s0, x) || x == element.v()),
    {
        let ghost v = element.v();
        let ghost s2 = s0.remove(in1);
        let ghost b = next_range.end_v();
        let mut extended = next_range;
        extended.extend_left_unchecked(element);
        proof {
            lemma_remove_ordered(s0, in1);
            lemma_remove_separated(s0, in1);
            lemma_no_prev_adjacent_margin(s0, v);
            assert forall|m: int|
                0 <= m < s2.len() implies ((#[trigger] s2[m]).1 + 1 < v || s2[m].0 > b + 1) by {
                if m < in1 {
                    assert(s2[m] == s0[m]);
                    lemma_next_idx_bound(s0, v, in1, m);
                } else {
                    assert(s2[m] == s0[m + 1]);
                    if m + 1 > in1 + 1 {
                        lemma_ordered_apart(s0, in1 + 1, m + 1);
                    }
                    assert(s0[in1 + 1].0 > s0[in1].1 + 1);
                }
            }
            assert(margin_ok(s2, v, b));
        }
        self.storage.insert_range(extended);
        proof {
            self.storage.inv_properties();
            let sf = self.storage.ranges();
            let k = choose|k: int| #![auto] 0 <= k <= s2.len() && sf == s2.insert(k, (v, b));
            lemma_insert_into_separated(s2, k, v, b);
            assert forall|x: int| seq_contains(sf, x) == (seq_contains(s0, x) || x == v) by {
                lemma_insert_contains(s2, k, (v, b), x);
                lemma_remove_contains(s0, in1, x);
                if v + 1 <= x <= b {
                    assert(s0[in1].0 <= x <= s0[in1].1);
                    assert(seq_contains(s0, x));
                }
            }
        }
    }

    /// Both neighbouring runs are adjacent: they have been taken out, store
    /// the single run that spans them and the element between them.
    #[verifier::rlimit(100)]
    #[verifier::spinoff_prover]
    fn apply_merge(
        &mut self,
        element: T,
        prev_range: crate::element::Element<T>,
        next_range: crate::element::Element<T>,
        Ghost(s0): Ghost<Seq<(int, int)>>,
        Ghost(ip): Ghost<int>,
        Ghost(in1): Ghost<int>,
    )
        requires
            old(self).storage.inv(),
            old(self).storage.ranges() == s0.remove(ip).remove(in1),
            ranges_separated(s0),
            !seq_contains(s0, element.v()),
            is_prev_idx(s0, element.v(), ip),
            prev_range.wf(),
            prev_range.end_v() + 1 == element.v(),
            s0[ip] == (prev_range.start_v(), prev_range.end_v()),
            is_next_idx(s0.remove(ip), element.v(), in1),
            next_range.wf(),
            next_range.start_v() == element.v() + 1,
            s0.remove(ip)[in1] == (next_range.start_v(), next_range.end_v()),
        ensures
            final(self).wf(),
            forall|x: int|
                seq_contains(final(self).ranges(), x) == (seq_contains(s0, x) || x == element.v()),
    {
        let ghost v = element.v();
        let ghost s1 = s0.remove(ip);
        let ghost s2 = s1.remove(in1);
        let ghost a = prev_range.start_v();
        let ghost b = next_range.end_v();
        let merged = crate::element::Element::new(*prev_range.start(), *next_range.end());
        proof {
            lemma_remove_ordered(s0, ip);
            lemma_remove_separated(s0, ip);
            lemma_remove_contains(s0, ip, v);
            lemma_remove_ordered(s1, in1);
            lemma_remove_separated(s1, in1);
            assert forall|m: int|
                0 <= m < s2.len() implies ((#[trigger] s2[m]).1 + 1 < a || s2[m].0 > b + 1) by {
                if m < in1 {
                    assert(s2[m] == s1[m]);
                    lemma_next_idx_bound(s1, v, in1, m);
                    assert(s1[m].0 < v);
                    if m < ip {
                        assert(s1[m] == s0[m]);
                        if m < ip - 1 {
                            lemma_ordered_apart(s0, m, ip - 1);
                        }
                        assert(s0[ip].0 > s0[ip - 1].1 + 1);
                    } else {
                        assert(s1[m] == s0[m + 1]);
                        lemma_prev_idx_bound(s0, v, ip, m + 1);
                        assert(false);
                    }
                } else {
                    assert(s2[m] == s1[m + 1]);
                    if m + 1 > in1 + 1 {
                        lemma_ordered_apart(s1, in1 + 1, m + 1);
                    }
                    assert(s1[in1 + 1].0 > s1[in1].1 + 1);
                }
            }
            assert(margin_ok(s2, a, b));
        }
        self.storage.insert_range(merged);
        proof {
            self.storage.inv_properties();
            let sf = self.storage.ranges();
            let k = choose|k: int| #![auto] 0 <= k <= s2.len() && sf == s2.insert(k, (a, b));
            lemma_insert_into_separated(s2, k, a, b);
            assert forall|x: int| seq_contains(sf, x) == (seq_contains(s0, x) || x == v) by {
                lemma_insert_contains(s2, k, (a, b), x);
                lemma_remove_contains(s0, ip, x);
                lemma_remove_contains(s1, in1, x);
                if a <= x <= v - 1 {
                    assert(s0[ip].0 <= x <= s0[ip].1);
                    assert(seq_contains(s0, x));
                }
                if v + 1 <= x <= b {
                    assert(s1[in1].0 <= x <= s1[in1].1);
                    assert(seq_contains(s1, x));
                }
            }
        }
    }

    /// Export the stored runs as ascending inclusive `(start, end)` pairs.
    pub fn to_pairs(&self) -> (r: Vec<(T, T)>)
        requires
            self.wf(),
        ensures
            pairs_view(r@) == self.ranges(),
    {
        let r = self.storage.to_pairs();
        proof {
            assert(pairs_view(r@) =~= self.storage.ranges());
        }
        r
    }

    /// Bulk-load a set from ascending inclusive `(start, end)` pairs whose
    /// runs are separated by at least one absent value.
    pub fn from_pairs(pairs: &Vec<(T, T)>) -> (s: Self)
        requires
            forall|i: int|
                0 <= i < pairs@.len() ==> (#[trigger] pairs@[i]).0.v() <= pairs@[i].1.v(),
            forall|i: int|
                0 < i < pairs@.len() ==> (#[trigger] pairs@[i]).0.v() > pairs@[i - 1].1.v() + 1,
        ensures
            s.wf(),
            s.ranges() == pairs_view(pairs@),
    {
        let ghost inp = pairs_view(pairs@);
        proof {
            assert forall|j: int| 0 <= j < inp.len() implies (#[trigger] inp[j]).0 <= inp[j].1 by {
                assert(inp[j] == (pairs@[j].0.v(), pairs@[j].1.v()));
            }
            assert forall|j: int| 0 < j < inp.len() implies (#[trigger] inp[j]).0 > inp[j - 1].1
                + 1 by {
                assert(inp[j] == (pairs@[j].0.v(), pairs@[j].1.v()));
                assert(inp[j - 1] == (pairs@[j - 1].0.v(), pairs@[j - 1].1.v()));
            }
            assert(ranges_separated(inp));
            lemma_separated_ordered(inp);
        }
        let mut s = RangeSet::<T, S>::new();
        let mut i: usize = 0;
        while i < pairs.len()
            invariant
                0 <= i <= pairs@.len(),
                inp == pairs_view(pairs@),
                ranges_separated(inp),
                ranges_ordered(inp),
                inp.len() == pairs@.len(),
                forall|j: int| 0 <= j < inp.len() ==> (#[trigger] inp[j]) == (
                    pairs@[j].0.v(),
                    pairs@[j].1.v(),
                ),
                s.storage.inv(),
                s.storage.ranges() == inp.take(i as int),
            decreases pairs@.len() - i,
        {
            let ghost prefix = inp.take(i as int);
            let (a, b) = pairs[i];
            proof {
                assert(inp[i as int] == (a.v(), b.v()));
                assert(inp[i as int].0 <= inp[i as int].1);
            }
            let e = crate::element::Element::new(a, b);
            proof {
                assert(inp[i as int] == (a.v(), b.v()));
                assert forall|j: int|
                    0 <= j < prefix.len() implies ((#[trigger] prefix[j]).1 < a.v()
                    || prefix[j].0 > b.v()) by {
                    lemma_ordered_apart(inp, j, i as int);
                }
            }
            s.storage.insert_range(e);
            proof {
                let sf = s.storage.ranges();
                let k = choose|k: int|
                    #![auto]
                    0 <= k <= prefix.len() && sf == prefix.insert(k, (a.v(), b.v()));
                s.storage.inv_properties();
                if k < prefix.len() {
                    assert(sf[k + 1] == prefix[k]);
                    assert(sf[k] == (a.v(), b.v()));
                    assert(sf[k + 1].0 > sf[k].1);
                    lemma_ordered_apart(inp, k, i as int);
                    assert(false);
                }
                assert(sf =~= prefix.push((a.v(), b.v())));
                assert(sf =~= inp.take(i as int + 1));
            }
            i = i + 1;
        }
        proof {
            assert(inp.take(i as int) =~= inp);
        }
        s
    }

}

/// Two well-formed stored-range sequences that cover the same integers are
/// the same sequence: the ascending, separated representation of a member
/// set is unique. This is why inserting the same members in any order, or
/// loading them in bulk, always yields the same stored ranges.
pub proof fn lemma_ranges_unique(s1: Seq<(int, int)>, s2: Seq<(int, int)>)
    requires
        ranges_separated(s1),
        ranges_separated(s2),
        forall|x: int| seq_contains(s1, x) == seq_contains(s2, x),
    ensures
        s1 == s2,
    decreases s1.len(),
{
    lemma_separated_ordered(s1);
    lemma_separated_ordered(s2);
    if s1.len() == 0 {
        if s2.len() > 0 {
            assert(seq_contains(s2, s2[0].0));
            assert(false);
        }
        assert(s1 =~= s2);
    } else if s2.len() == 0 {
        assert(seq_contains(s1, s1[0].0));
        assert(false);
    } else {
        assert(seq_contains(s1, s1[0].0));
        assert(seq_contains(s2, s2[0].0));
        let j1 = choose|i: int| 0 <= i < s2.len() && (#[trigger] s2[i]).0 <= s1[0].0 <= s2[i].1;
        if j1 > 0 {
            lemma_ordered_apart(s2, 0, j1);
        }
        let j2 = choose|i: int| 0 <= i < s1.len() && (#[trigger] s1[i]).0 <= s2[0].0 <= s1[i].1;
        if j2 > 0 {
            lemma_ordered_apart(s1, 0, j2);
        }
        assert(s1[0].0 == s2[0].0);
        if s1[0].1 < s2[0].1 {
            let x = s1[0].1 + 1;
            assert(s2[0].0 <= x <= s2[0].1);
            assert(seq_contains(s2, x));
            let j = choose|i: int| 0 <= i < s1.len() && (#[trigger] s1[i]).0 <= x <= s1[i].1;
            if j > 1 {
                lemma_ordered_apart(s1, 1, j);
            }
            assert(false);
        }
        if s2[0].1 < s1[0].1 {
            let x = s2[0].1 + 1;
            assert(s1[0].0 <= x <= s1[0].1);
            assert(seq_contains(s1, x));
            let j = choose|i: int| 0 <= i < s2.len() && (#[trigger] s2[i]).0 <= x <= s2[i].1;
            if j > 1 {
                lemma_ordered_apart(s2, 1, j);
            }
            assert(false);
        }
        assert(s1[0] == s2[0]);
        let t1 = s1.subrange(1, s1.len() as int);
        let t2 = s2.subrange(1, s2.len() as int);
        assert forall|j: int| 0 <= j < t1.len() implies (#[trigger] t1[j]).0 <= t1[j].1 by {
            assert(t1[j] == s1[j + 1]);
        }
        assert forall|j: int| 0 < j < t1.len() implies (#[trigger] t1[j]).0 > t1[j - 1].1 + 1 by {
            assert(t1[j] == s1[j + 1] && t1[j - 1] == s1[j]);
        }
        assert forall|j: int| 0 <= j < t2.len() implies (#[trigger] t2[j]).0 <= t2[j].1 by {
            assert(t2[j] == s2[j + 1]);
        }
        assert forall|j: int| 0 < j < t2.len() implies (#[trigger] t2[j]).0 > t2[j - 1].1 + 1 by {
            assert(t2[j] == s2[j + 1] && t2[j - 1] == s2[j]);
        }
        assert forall|x: int| seq_contains(t1, x) == seq_contains(t2, x) by {
            lemma_tail_contains(s1, x);
            lemma_tail_contains(s2, x);
        }
        lemma_ranges_unique(t1, t2);
        assert forall|j: int| 0 <= j < s1.len() implies s1[j] == s2[j] by {
            if j > 0 {
                assert(s1[j] == t1[j - 1] && s2[j] == t2[j - 1]);
            }
        }
        assert(s1 =~= s2);
    }
}

/// The tail of an ordered sequence covers exactly the covered integers that
/// lie beyond the first run.
proof fn lemma_tail_contains(s: Seq<(int, int)>, x: int)
    requires
        ranges_ordered(s),
        s.len() > 0,
    ensures
        seq_contains(s.subrange(1, s.len() as int), x) == (seq_contains(s, x) && x > s[0].1),
{
    let t = s.subrange(1, s.len() as int);
    if seq_contains(t, x) {
        let j = choose|i: int| 0 <= i < t.len() && (#[trigger] t[i]).0 <= x <= t[i].1;
        assert(s[j + 1].0 <= x <= s[j + 1].1);
        lemma_ordered_apart(s, 0, j + 1);
    }
    if seq_contains(s, x) && x > s[0].1 {
        let j = choose|i: int| 0 <= i < s.len() && (#[trigger] s[i]).0 <= x <= s[i].1;
        assert(j > 0);
        assert(t[j - 1].0 <= x <= t[j - 1].1);
    }
}

/// Inserting an already-present value changes nothing: any well-formed
/// stored-range sequence that covers a member set plus one of its existing
/// members is the original sequence itself.
pub proof fn lemma_insert_idempotent(s1: Seq<(int, int)>, s2: Seq<(int, int)>, v: int)
    requires
        ranges_separated(s1),
        ranges_separated(s2),
        seq_contains(s1, v),
        forall|x: int| seq_contains(s2, x) == (seq_contains(s1, x) || x == v),
    ensures
        s1 == s2,
{
    assert forall|x: int| seq_contains(s1, x) == seq_contains(s2, x) by {}
    lemma_ranges_unique(s1, s2);
}

/// Inserting the same multiset of values in any order yields the same
/// stored ranges: two well-formed sets whose members are the values of two
/// reorderings of one multiset store identical range sequences.
pub proof fn lemma_order_independent(
    vals1: Seq<int>,
    vals2: Seq<int>,
    s1: Seq<(int, int)>,
    s2: Seq<(int, int)>,
)
    requires
        ranges_separated(s1),
        ranges_separated(s2),
        vals1.to_multiset() == vals2.to_multiset(),
        forall|x: int| seq_contains(s1, x) == vals1.contains(x),
        forall|x: int| seq_contains(s2, x) == vals2.contains(x),
    ensures
        s1 == s2,
{
    broadcast use vstd::seq_lib::group_to_multiset_ensures;

    assert forall|x: int| seq_contains(s1, x) == seq_contains(s2, x) by {
        assert(vals1.contains(x) <==> vals1.to_multiset().count(x) > 0);
        assert(vals2.contains(x) <==> vals2.to_multiset().count(x) > 0);
    }
    lemma_ranges_unique(s1, s2);
}

/// Taking the compliment twice restores the original stored ranges exactly.
pub proof fn lemma_compliment_round_trip<T: Element>(
    s: Seq<(int, int)>,
    c: Seq<(int, int)>,
    cc: Seq<(int, int)>,
)
    requires
        ranges_separated(s),
        ranges_bounded::<T>(s),
        ranges_separated(cc),
        forall|x: int|
            seq_contains(c, x) == (T::min_v() <= x <= T::max_v() && !seq_contains(s, x)),
        forall|x: int|
            seq_contains(cc, x) == (T::min_v() <= x <= T::max_v() && !seq_contains(c, x)),
    ensures
        cc == s,
{
    assert forall|x: int| seq_contains(cc, x) == seq_contains(s, x) by {
        if seq_contains(s, x) {
            let i = choose|i: int| 0 <= i < s.len() && (#[trigger] s[i]).0 <= x <= s[i].1;
            assert(T::min_v() <= x <= T::max_v());
        }
    }
    lemma_ranges_unique(cc, s);
}

impl<T: Element, S: Storage<T> + Clone> Clone for RangeSet<T, S> {
    /// A copy of the set, backed by a clone of its repository.
    fn clone(&self) -> Self {
        RangeSet { storage: self.storage.clone(), _values: core::marker::PhantomData }
    }
}

impl<T: Element, S: Storage<T>> Default for RangeSet<T, S> {
    /// An empty set.
    fn default() -> (s: Self)
        ensures
            s.wf(),
            s.ranges() == Seq::<(int, int)>::empty(),
    {
        RangeSet::new()
    }
}

impl<T: crate::compliment::Bounded, S: Storage<T>> RangeSet<T, S> {
    /// Convert this set into its compliment: the set of exactly those domain
    /// values that it does not contain.
    #[must_use]
    pub fn into_compliment(self) -> (r: Self)
        requires
            self.wf(),
        ensures
            r.wf(),
            forall|x: int|
                r.contains_v(x) == (T::min_v() <= x <= T::max_v() && !self.contains_v(x)),
    {
        proof {
            self.lemma_wf_ranges();
        }
        let pairs = self.to_pairs();
        proof {
            let pv = pairs_view(pairs@);
            assert forall|i: int|
                0 <= i < pairs@.len() implies (#[trigger] pairs@[i]).0.v() <= pairs@[i].1.v() by {
                assert(pv[i] == (pairs@[i].0.v(), pairs@[i].1.v()));
            }
            assert forall|i: int|
                0 < i < pairs@.len() implies (#[trigger] pairs@[i]).0.v() > pairs@[i - 1].1.v()
                + 1 by {
                assert(pv[i] == (pairs@[i].0.v(), pairs@[i].1.v()));
                assert(pv[i - 1] == (pairs@[i - 1].0.v(), pairs@[i - 1].1.v()));
            }
        }
        let gap_pairs = crate::compliment::gaps(&pairs);
        proof {
            let gv = pairs_view(gap_pairs@);
            assert forall|i: int|
                0 <= i < gap_pairs@.len() implies (#[trigger] gap_pairs@[i]).0.v()
                <= gap_pairs@[i].1.v() by {
                assert(gv[i] == (gap_pairs@[i].0.v(), gap_pairs@[i].1.v()));
            }
            assert forall|i: int|
                0 < i < gap_pairs@.len() implies (#[trigger] gap_pairs@[i]).0.v()
                > gap_pairs@[i - 1].1.v() + 1 by {
                assert(gv[i] == (gap_pairs@[i].0.v(), gap_pairs@[i].1.v()));
                assert(gv[i - 1] == (gap_pairs@[i - 1].0.v(), gap_pairs@[i - 1].1.v()));
            }
        }
        RangeSet::<T, S>::from_pairs(&gap_pairs)
    }
}

} // verus!
