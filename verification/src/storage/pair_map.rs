//! A repository realization backed by an ordered vector of bound pairs, the
//! shape of a map from run start to run end.

use vstd::prelude::*;

use crate::element::Element;
use crate::storage::{
    is_next_idx, is_prev_idx, lemma_ordered_apart, lemma_remove_bounded, lemma_remove_ordered,
    ranges_bounded, ranges_ordered, seq_contains, Storage,
};

verus! {

/// The "map of bounds" realization of the repository contract: the runs are
/// kept as inclusive `(start, end)` bound pairs in a vector ascending by
/// start, as an ordered map keyed by run start would hold them.
#[derive(Clone, Debug)]
pub struct PairMap<T> {
    pairs: Vec<(T, T)>,
}

impl<T: crate::set::Element> PairMap<T> {
    /// The first index whose run starts at or above `value`.
    fn lower_bound(&self, value: &T) -> (idx: usize)
        requires
            self.inv(),
        ensures
            0 <= idx <= self.ranges().len(),
            forall|j: int| 0 <= j < idx ==> (#[trigger] self.ranges()[j]).0 < value.v(),
            idx < self.ranges().len() ==> self.ranges()[idx as int].0 >= value.v(),
    {
        let mut lo: usize = 0;
        let mut hi: usize = self.pairs.len();
        while lo < hi
            invariant
                self.inv(),
                0 <= lo <= hi <= self.pairs@.len(),
                self.ranges().len() == self.pairs@.len(),
                forall|j: int| 0 <= j < lo ==> (#[trigger] self.ranges()[j]).0 < value.v(),
                forall|j: int|
                    hi <= j < self.ranges().len() ==> (#[trigger] self.ranges()[j]).0 >= value.v(),
            decreases hi - lo,
        {
            let mid = lo + (hi - lo) / 2;
            if !value.le(self.pairs[mid].0) {
                proof {
                    assert forall|j: int|
                        0 <= j < mid + 1 implies (#[trigger] self.ranges()[j]).0 < value.v() by {
                        if j < mid {
                            lemma_ordered_apart(self.ranges(), j, mid as int);
                        }
                    }
                }
                lo = mid + 1;
            } else {
                proof {
                    assert forall|j: int|
                        mid <= j < self.ranges().len() implies (#[trigger] self.ranges()[j]).0
                        >= value.v() by {
                        if j > mid {
                            lemma_ordered_apart(self.ranges(), mid as int, j);
                        }
                    }
                }
                hi = mid;
            }
        }
        lo
    }

    /// Bulk-load from ascending `(start, end)` pairs whose end bound is
    /// exclusive: each pair stands for the run `[start, end - 1]`, the shape
    /// a map from run start to one-past-the-run hands out.
    pub fn from_exclusive_pairs(pairs: Vec<(T, T)>) -> (r: Self)
        requires
            forall|i: int| 0 <= i < pairs@.len() ==> (#[trigger] pairs@[i]).0.v() < pairs@[i].1.v(),
            forall|i: int|
                0 < i < pairs@.len() ==> (#[trigger] pairs@[i]).0.v() >= pairs@[i - 1].1.v(),
        ensures
            r.inv(),
            r.ranges().len() == pairs@.len(),
            forall|i: int|
                0 <= i < pairs@.len() ==> (#[trigger] r.ranges()[i]) == (
                    pairs@[i].0.v(),
                    pairs@[i].1.v() - 1,
                ),
    {
        let mut out: Vec<(T, T)> = Vec::new();
        let mut i: usize = 0;
        while i < pairs.len()
            invariant
                0 <= i <= pairs@.len(),
                forall|j: int|
                    0 <= j < pairs@.len() ==> (#[trigger] pairs@[j]).0.v() < pairs@[j].1.v(),
                forall|j: int|
                    0 < j < pairs@.len() ==> (#[trigger] pairs@[j]).0.v() >= pairs@[j - 1].1.v(),
                out@.len() == i,
                forall|j: int|
                    0 <= j < i ==> ((#[trigger] out@[j]).0.v(), out@[j].1.v()) == (
                        pairs@[j].0.v(),
                        pairs@[j].1.v() - 1,
                    ),
            decreases pairs@.len() - i,
        {
            let (s, e) = pairs[i];
            proof {
                s.v_in_bounds();
            }
            let ep = e.prev();
            let e1 = ep.unwrap();
            out.push((s, e1));
            i = i + 1;
        }
        let r = PairMap { pairs: out };
        proof {
            assert forall|j: int|
                0 <= j < pairs@.len() implies (#[trigger] r.ranges()[j]) == (
                    pairs@[j].0.v(),
                    pairs@[j].1.v() - 1,
                ) by {
                assert(r.ranges()[j] == (out@[j].0.v(), out@[j].1.v()));
            }
            assert forall|j: int|
                0 <= j < r.ranges().len() implies (#[trigger] r.ranges()[j]).0 <= r.ranges()[j].1
                    && T::min_v() <= r.ranges()[j].0 && r.ranges()[j].1 <= T::max_v() by {
                pairs@[j].0.v_in_bounds();
                pairs@[j].1.v_in_bounds();
            }
            assert forall|j: int|
                0 < j < r.ranges().len() implies (#[trigger] r.ranges()[j]).0 > r.ranges()[j
                    - 1].1 by {}
        }
        r
    }
}

impl<T: crate::set::Element> Storage<T> for PairMap<T> {
    closed spec fn ranges(&self) -> Seq<(int, int)> {
        self.pairs@.map(|i: int, p: (T, T)| (p.0.v(), p.1.v()))
    }

    closed spec fn inv(&self) -> bool {
        ranges_ordered(self.ranges()) && ranges_bounded::<T>(self.ranges())
    }

    proof fn inv_properties(&self) {
    }

    fn new() -> (s: Self) {
        let s = PairMap::<T> { pairs: Vec::new() };
        proof {
            assert(s.ranges() =~= Seq::<(int, int)>::empty());
        }
        s
    }

    #[verifier::rlimit(60)]
    #[verifier::spinoff_prover]
    fn contains(&self, value: &T) -> (r: bool) {
        let idx = self.lower_bound(value);
        if idx < self.pairs.len() {
            let (s, e) = self.pairs[idx];
            if s.le(*value) && value.le(e) {
                proof {
                    assert((#[trigger] self.ranges()[idx as int]).0 <= value.v()
                        <= self.ranges()[idx as int].1);
                }
                return true;
            }
        }
        if idx > 0 {
            let (s, e) = self.pairs[idx - 1];
            if s.le(*value) && value.le(e) {
                proof {
                    assert((#[trigger] self.ranges()[idx as int - 1]).0 <= value.v()
                        <= self.ranges()[idx as int - 1].1);
                }
                return true;
            }
        }
        proof {
            let s = self.ranges();
            let v = value.v();
            if seq_contains(s, v) {
                let j = choose|j: int| 0 <= j < s.len() && (#[trigger] s[j]).0 <= v <= s[j].1;
                if j >= idx {
                    if j > idx {
                        lemma_ordered_apart(s, idx as int, j);
                    }
                    assert(false);
                } else {
                    if j < idx as int - 1 {
                        lemma_ordered_apart(s, j, idx as int - 1);
                    }
                    assert(false);
                }
            }
        }
        false
    }

    fn prev_range(&self, value: &T) -> (r: Option<Element<T>>)
    {
        let idx = self.lower_bound(value);
        if idx > 0 {
            let (s, e) = self.pairs[idx - 1];
            proof {
                assert(self.ranges()[idx as int - 1] == (s.v(), e.v()));
                assert(is_prev_idx(self.ranges(), value.v(), idx as int - 1));
            }
            Some(Element::new(s, e))
        } else {
            proof {
                assert forall|i: int|
                    0 <= i < self.ranges().len() implies (#[trigger] self.ranges()[i]).0
                    >= value.v() by {
                    if i > 0 {
                        lemma_ordered_apart(self.ranges(), 0, i);
                    }
                }
            }
            None
        }
    }

    fn next_range(&self, value: &T) -> (r: Option<Element<T>>)
    {
        let idx = self.lower_bound(value);
        if idx < self.pairs.len() {
            let (s, e) = self.pairs[idx];
            proof {
                assert(self.ranges()[idx as int] == (s.v(), e.v()));
                assert(is_next_idx(self.ranges(), value.v(), idx as int));
            }
            Some(Element::new(s, e))
        } else {
            None
        }
    }

    fn take_prev_adjacent(&mut self, value: &T) -> (r: Option<Element<T>>)
    {
        let idx = self.lower_bound(value);
        let mut adjacent = false;
        if idx > 0 {
            let (_, pe) = self.pairs[idx - 1];
            adjacent = match pe.next() {
                Some(n) => n.le(*value) && value.le(n),
                None => {
                    proof {
                        value.v_in_bounds();
                    }
                    false
                },
            };
        }
        if adjacent {
            let ghost s0 = self.ranges();
            let (ps, pe) = self.pairs.remove(idx - 1);
            proof {
                assert(s0[idx as int - 1] == (ps.v(), pe.v()));
                assert(self.ranges() =~= s0.remove(idx as int - 1));
                lemma_remove_ordered(s0, idx as int - 1);
                lemma_remove_bounded::<T>(s0, idx as int - 1);
                assert(is_prev_idx(s0, value.v(), idx as int - 1));
            }
            return Some(Element::new(ps, pe));
        }
        proof {
            let s = self.ranges();
            let v = value.v();
            assert forall|i: int| #[trigger] is_prev_idx(s, v, i) implies s[i].1 + 1 != v by {
                if i < idx as int - 1 {
                    assert(s[i + 1].0 < v);
                    assert(false);
                } else if i > idx as int - 1 {
                    if i > idx {
                        lemma_ordered_apart(s, idx as int, i);
                    }
                    assert(s[i].0 >= v);
                    assert(false);
                }
            }
        }
        None
    }

    fn take_next_adjacent(&mut self, value: &T) -> (r: Option<Element<T>>)
    {
        let idx = self.lower_bound(value);
        let mut adjacent = false;
        if idx < self.pairs.len() {
            let (ns, _) = self.pairs[idx];
            adjacent = match ns.prev() {
                Some(p) => p.le(*value) && value.le(p),
                None => {
                    proof {
                        value.v_in_bounds();
                    }
                    false
                },
            };
        }
        if adjacent {
            let ghost s0 = self.ranges();
            let (ns, ne) = self.pairs.remove(idx);
            proof {
                assert(s0[idx as int] == (ns.v(), ne.v()));
                assert(self.ranges() =~= s0.remove(idx as int));
                lemma_remove_ordered(s0, idx as int);
                lemma_remove_bounded::<T>(s0, idx as int);
                assert(is_next_idx(s0, value.v(), idx as int));
            }
            return Some(Element::new(ns, ne));
        }
        proof {
            let s = self.ranges();
            let v = value.v();
            assert forall|i: int| #[trigger] is_next_idx(s, v, i) implies s[i].0 != v + 1 by {
                if i < idx {
                    assert(s[i].0 < v);
                    assert(false);
                } else if i > idx {
                    assert(s[i - 1].0 < v);
                    if idx < i - 1 {
                        lemma_ordered_apart(s, idx as int, i - 1);
                        assert(s[i - 1].0 > s[idx as int].0);
                    }
                    assert(false);
                }
            }
        }
        None
    }

    fn insert_range(&mut self, range: Element<T>)
    {
        let idx = self.lower_bound(range.start());
        let ghost s0 = self.ranges();
        proof {
            range.lemma_in_bounds();
        }
        let bounds = range.into_inner();
        self.pairs.insert(idx, bounds);
        proof {
            let t = self.ranges();
            let rr = (bounds.0.v(), bounds.1.v());
            assert(t =~= s0.insert(idx as int, rr));
            assert forall|j: int| 0 <= j < t.len() implies (#[trigger] t[j]).0 <= t[j].1 by {
                if j < idx {
                    assert(t[j] == s0[j]);
                } else if j == idx {
                    assert(t[j] == rr);
                } else {
                    assert(t[j] == s0[j - 1]);
                }
            }
            assert forall|j: int| 0 < j < t.len() implies (#[trigger] t[j]).0 > t[j - 1].1 by {
                if j < idx {
                    assert(t[j] == s0[j] && t[j - 1] == s0[j - 1]);
                } else if j == idx {
                    assert(t[j] == rr && t[j - 1] == s0[j - 1]);
                    assert(s0[j - 1].0 < rr.0);
                    assert(s0[j - 1].1 < rr.0 || s0[j - 1].0 > rr.1);
                } else if j == idx + 1 {
                    assert(t[j] == s0[j - 1] && t[j - 1] == rr);
                    assert(s0[j - 1].0 >= rr.0);
                    assert(s0[j - 1].1 < rr.0 || s0[j - 1].0 > rr.1);
                    assert(s0[j - 1].0 <= s0[j - 1].1);
                } else {
                    assert(t[j] == s0[j - 1] && t[j - 1] == s0[j - 2]);
                }
            }
            assert forall|j: int|
                0 <= j < t.len() implies T::min_v() <= (#[trigger] t[j]).0 && t[j].1
                <= T::max_v() by {
                if j < idx {
                    assert(t[j] == s0[j]);
                } else if j == idx {
                    assert(t[j] == rr);
                } else {
                    assert(t[j] == s0[j - 1]);
                }
            }
        }
    }

    fn to_pairs(&self) -> (r: Vec<(T, T)>)
    {
        let mut r: Vec<(T, T)> = Vec::new();
        let mut i: usize = 0;
        while i < self.pairs.len()
            invariant
                self.inv(),
                0 <= i <= self.pairs@.len(),
                self.ranges().len() == self.pairs@.len(),
                r@.len() == i,
                forall|j: int|
                    0 <= j < i ==> ((#[trigger] r@[j]).0.v(), r@[j].1.v()) == self.ranges()[j],
            decreases self.pairs@.len() - i,
        {
            let (s, e) = self.pairs[i];
            r.push((s, e));
            i = i + 1;
        }
        r
    }
}

} // verus!
