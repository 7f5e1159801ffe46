//! A repository realization backed by an ordered vector of range elements.

use vstd::prelude::*;

use crate::element::Element;
use crate::storage::{
    is_next_idx, is_prev_idx, lemma_ordered_apart, lemma_remove_bounded, lemma_remove_ordered,
    ranges_bounded, ranges_ordered, seq_contains, Storage,
};

verus! {

/// The "ordered set of elements" realization of the repository contract: the
/// runs are kept as [`Element`]s in a vector ascending by start.
#[derive(Clone, Debug)]
pub struct ElementSet<T> {
    elems: Vec<Element<T>>,
}

impl<T: crate::set::Element> ElementSet<T> {
    /// The first index whose run starts at or above `value`.
    fn lower_bound(&self, value: &T) -> (idx: usize)
        requires
            self.inv(),
        ensures
            0 <= idx <= self.ranges().len(),
            forall|j: int| 0 <= j < idx ==> (#[trigger] self.ranges()[j]).0 < value.v(),
            idx < self.ranges().len() ==> self.ranges()[idx as int].0 >= value.v(),
    {
        let mut lo: usize = 0;
        let mut hi: usize = self.elems.len();
        while lo < hi
            invariant
                self.inv(),
                0 <= lo <= hi <= self.elems@.len(),
                self.ranges().len() == self.elems@.len(),
                forall|j: int| 0 <= j < lo ==> (#[trigger] self.ranges()[j]).0 < value.v(),
                forall|j: int|
                    hi <= j < self.ranges().len() ==> (#[trigger] self.ranges()[j]).0 >= value.v(),
            decreases hi - lo,
        {
            let mid = lo + (hi - lo) / 2;
            if !value.le(*self.elems[mid].start()) {
                proof {
                    assert forall|j: int|
                        0 <= j < mid + 1 implies (#[trigger] self.ranges()[j]).0 < value.v() by {
                        if j < mid {
                            lemma_ordered_apart(self.ranges(), j, mid as int);
                        }
                    }
                }
                lo = mid + 1;
            } else {
                proof {
                    assert forall|j: int|
                        mid <= j < self.ranges().len() implies (#[trigger] self.ranges()[j]).0
                        >= value.v() by {
                        if j > mid {
                            lemma_ordered_apart(self.ranges(), mid as int, j);
                        }
                    }
                }
                hi = mid;
            }
        }
        lo
    }
}

impl<T: crate::set::Element> Storage<T> for ElementSet<T> {
    closed spec fn ranges(&self) -> Seq<(int, int)> {
        self.elems@.map(|i: int, e: Element<T>| (e.start_v(), e.end_v()))
    }

    closed spec fn inv(&self) -> bool {
        ranges_ordered(self.ranges()) && ranges_bounded::<T>(self.ranges())
    }

    proof fn inv_properties(&self) {
    }

    fn new() -> (s: Self) {
        let s = ElementSet::<T> { elems: Vec::new() };
        proof {
            assert(s.ranges() =~= Seq::<(int, int)>::empty());
        }
        s
    }

    fn contains(&self, value: &T) -> (r: bool) {
        let idx = self.lower_bound(value);
        if idx < self.elems.len() {
            let e = &self.elems[idx];
            if e.contains(value) {
                proof {
                    assert((#[trigger] self.ranges()[idx as int]).0 <= value.v()
                        <= self.ranges()[idx as int].1);
                }
                return true;
            }
        }
        if idx > 0 {
            let e = &self.elems[idx - 1];
            if e.contains(value) {
                proof {
                    assert((#[trigger] self.ranges()[idx as int - 1]).0 <= value.v()
                        <= self.ranges()[idx as int - 1].1);
                }
                return true;
            }
        }
        proof {
            let s = self.ranges();
            let v = value.v();
            if seq_contains(s, v) {
                let j = choose|j: int| 0 <= j < s.len() && (#[trigger] s[j]).0 <= v <= s[j].1;
                if j >= idx {
                    if j > idx {
                        lemma_ordered_apart(s, idx as int, j);
                    }
                    assert(false);
                } else {
                    if j < idx as int - 1 {
                        lemma_ordered_apart(s, j, idx as int - 1);
                    }
                    assert(false);
                }
            }
        }
        false
    }

    fn prev_range(&self, value: &T) -> (r: Option<Element<T>>)
    {
        let idx = self.lower_bound(value);
        if idx > 0 {
            let e = self.elems[idx - 1];
            proof {
                assert(is_prev_idx(self.ranges(), value.v(), idx as int - 1));
            }
            Some(e)
        } else {
            proof {
                assert forall|i: int|
                    0 <= i < self.ranges().len() implies (#[trigger] self.ranges()[i]).0
                    >= value.v() by {
                    if i > 0 {
                        lemma_ordered_apart(self.ranges(), 0, i);
                    }
                }
            }
            None
        }
    }

    fn next_range(&self, value: &T) -> (r: Option<Element<T>>)
    {
        let idx = self.lower_bound(value);
        if idx < self.elems.len() {
            let e = self.elems[idx];
            proof {
                assert(is_next_idx(self.ranges(), value.v(), idx as int));
            }
            Some(e)
        } else {
            None
        }
    }

    fn take_prev_adjacent(&mut self, value: &T) -> (r: Option<Element<T>>)
    {
        let idx = self.lower_bound(value);
        if idx > 0 {
            let e = &self.elems[idx - 1];
            if e.is_one_less_than(value) {
                let ghost s0 = self.ranges();
                let taken = self.elems.remove(idx - 1);
                proof {
                    assert(self.ranges() =~= s0.remove(idx as int - 1));
                    lemma_remove_ordered(s0, idx as int - 1);
                    lemma_remove_bounded::<T>(s0, idx as int - 1);
                    assert(is_prev_idx(s0, value.v(), idx as int - 1));
                }
                return Some(taken);
            }
        }
        proof {
            let s = self.ranges();
            let v = value.v();
            assert forall|i: int| #[trigger] is_prev_idx(s, v, i) implies s[i].1 + 1 != v by {
                if i < idx as int - 1 {
                    assert(s[i + 1].0 < v);
                    assert(false);
                } else if i > idx as int - 1 {
                    if i > idx {
                        lemma_ordered_apart(s, idx as int, i);
                    }
                    assert(s[i].0 >= v);
                    assert(false);
                }
            }
        }
        None
    }

    fn take_next_adjacent(&mut self, value: &T) -> (r: Option<Element<T>>)
    {
        let idx = self.lower_bound(value);
        if idx < self.elems.len() {
            let e = &self.elems[idx];
            if e.is_one_more_than(value) {
                let ghost s0 = self.ranges();
                let taken = self.elems.remove(idx);
                proof {
                    assert(self.ranges() =~= s0.remove(idx as int));
                    lemma_remove_ordered(s0, idx as int);
                    lemma_remove_bounded::<T>(s0, idx as int);
                    assert(is_next_idx(s0, value.v(), idx as int));
                }
                return Some(taken);
            }
        }
        proof {
            let s = self.ranges();
            let v = value.v();
            assert forall|i: int| #[trigger] is_next_idx(s, v, i) implies s[i].0 != v + 1 by {
                if i < idx {
                    assert(s[i].0 < v);
                    assert(false);
                } else if i > idx {
                    assert(s[i - 1].0 < v);
                    if idx < i - 1 {
                        lemma_ordered_apart(s, idx as int, i - 1);
                        assert(s[i - 1].0 > s[idx as int].0);
                    }
                    assert(false);
                }
            }
        }
        None
    }

    fn insert_range(&mut self, range: Element<T>)
    {
        let idx = self.lower_bound(range.start());
        let ghost s0 = self.ranges();
        self.elems.insert(idx, range);
        proof {
            let t = self.ranges();
            let rr = (range.start_v(), range.end_v());
            assert(t =~= s0.insert(idx as int, rr));
            range.lemma_in_bounds();
            assert forall|j: int| 0 <= j < t.len() implies (#[trigger] t[j]).0 <= t[j].1 by {
                if j < idx {
                    assert(t[j] == s0[j]);
                } else if j == idx {
                    assert(t[j] == rr);
                } else {
                    assert(t[j] == s0[j - 1]);
                }
            }
            assert forall|j: int| 0 < j < t.len() implies (#[trigger] t[j]).0 > t[j - 1].1 by {
                if j < idx {
                    assert(t[j] == s0[j] && t[j - 1] == s0[j - 1]);
                } else if j == idx {
                    assert(t[j] == rr && t[j - 1] == s0[j - 1]);
                    assert(s0[j - 1].0 < rr.0);
                    assert(s0[j - 1].1 < rr.0 || s0[j - 1].0 > rr.1);
                } else if j == idx + 1 {
                    assert(t[j] == s0[j - 1] && t[j - 1] == rr);
                    assert(s0[j - 1].0 >= rr.0);
                    assert(s0[j - 1].1 < rr.0 || s0[j - 1].0 > rr.1);
                    assert(s0[j - 1].0 <= s0[j - 1].1);
                } else {
                    assert(t[j] == s0[j - 1] && t[j - 1] == s0[j - 2]);
                }
            }
            assert forall|j: int|
                0 <= j < t.len() implies T::min_v() <= (#[trigger] t[j]).0 && t[j].1
                <= T::max_v() by {
                if j < idx {
                    assert(t[j] == s0[j]);
                } else if j == idx {
                    assert(t[j] == rr);
                } else {
                    assert(t[j] == s0[j - 1]);
                }
            }
        }
    }

    fn to_pairs(&self) -> (r: Vec<(T, T)>)
    {
        let mut r: Vec<(T, T)> = Vec::new();
        let mut i: usize = 0;
        while i < self.elems.len()
            invariant
                self.inv(),
                0 <= i <= self.elems@.len(),
                self.ranges().len() == self.elems@.len(),
                r@.len() == i,
                forall|j: int|
                    0 <= j < i ==> ((#[trigger] r@[j]).0.v(), r@[j].1.v()) == self.ranges()[j],
            decreases self.elems@.len() - i,
        {
            let e = &self.elems[i];
            r.push((*e.start(), *e.end()));
            i = i + 1;
        }
        r
    }
}

} // verus!
