//! The inclusive range of domain values that a set stores.

use vstd::prelude::*;

verus! {

/// An inclusive contiguous run `[start, end]` of domain values: it stands for
/// every value from `start` up to and including `end`.
///
/// A well-formed element has ordered bounds (`start <= end`), so the run it
/// stands for is never empty.
#[derive(Clone, Copy, Debug, PartialEq, Eq)]
pub struct Element<T> {
    start: T,
    end: T,
}

impl<T: crate::set::Element> Element<T> {
    /// The integer of the run's first member.
    pub closed spec fn start_v(self) -> int {
        self.start.v()
    }

    /// The integer of the run's last member.
    pub closed spec fn end_v(self) -> int {
        self.end.v()
    }

    /// Well-formed: the bounds are ordered.
    pub open spec fn wf(self) -> bool {
        self.start_v() <= self.end_v()
    }

    /// Both bounds lie inside the domain.
    pub proof fn lemma_in_bounds(self)
        ensures
            T::min_v() <= self.start_v(),
            self.end_v() <= T::max_v(),
    {
        self.start.v_in_bounds();
        self.end.v_in_bounds();
    }

    /// Build the run `[start, end]` from two ordered bounds.
    pub fn new(start: T, end: T) -> (r: Self)
        requires
            start.v() <= end.v(),
        ensures
            r.wf(),
            r.start_v() == start.v(),
            r.end_v() == end.v(),
    {
        Element { start, end }
    }

    /// The run's first member.
    pub fn start(&self) -> (r: &T)
        ensures
            r.v() == self.start_v(),
    {
        &self.start
    }

    /// The run's last member.
    pub fn end(&self) -> (r: &T)
        ensures
            r.v() == self.end_v(),
    {
        &self.end
    }

    /// Whether `value` is one of the run's members.
    pub fn contains(&self, value: &T) -> (r: bool)
        ensures
            r == (self.start_v() <= value.v() <= self.end_v()),
    {
        self.start.le(*value) && value.le(self.end)
    }

    /// Whether this run ends immediately below `value`: the successor of the
    /// run's end is `value`. False when the end has no successor.
    pub fn is_one_less_than(&self, value: &T) -> (r: bool)
        ensures
            r == (self.end_v() + 1 == value.v()),
    {
        match self.end.next() {
            Some(n) => n.le(*value) && value.le(n),
            None => {
                proof {
                    value.v_in_bounds();
                }
                false
            },
        }
    }

    /// Whether this run starts immediately above `value`: the predecessor of
    /// the run's start is `value`. False when the start has no predecessor.
    pub fn is_one_more_than(&self, value: &T) -> (r: bool)
        ensures
            r == (value.v() + 1 == self.start_v()),
    {
        match self.start.prev() {
            Some(p) => p.le(*value) && value.le(p),
            None => {
                proof {
                    value.v_in_bounds();
                }
                false
            },
        }
    }

    /// Move the run's end up to `value`, which must lie strictly beyond the
    /// current end; callers invoke this only after establishing adjacency.
    pub fn extend_right_unchecked(&mut self, value: T)
        requires
            old(self).wf(),
            value.v() > old(self).end_v(),
        ensures
            final(self).wf(),
            final(self).start_v() == old(self).start_v(),
            final(self).end_v() == value.v(),
    {
        self.end = value;
    }

    /// Move the run's start down to `value`, which must lie strictly before
    /// the current start; callers invoke this only after establishing
    /// adjacency.
    pub fn extend_left_unchecked(&mut self, value: T)
        requires
            old(self).wf(),
            value.v() < old(self).start_v(),
        ensures
            final(self).wf(),
            final(self).start_v() == value.v(),
            final(self).end_v() == old(self).end_v(),
    {
        self.start = value;
    }

    /// What conversion from a single value builds: the run `[t, t]`.
    pub proof fn lemma_from_value(t: T)
        ensures
            (#[trigger] <Element<T> as vstd::std_specs::convert::FromSpec<T>>::from_spec(t)).start_v() == t.v(),
            <Element<T> as vstd::std_specs::convert::FromSpec<T>>::from_spec(t).end_v() == t.v(),
    {
    }

    /// Take the run apart into its `(start, end)` bounds.
    pub fn into_inner(self) -> (r: (T, T))
        ensures
            r.0.v() == self.start_v(),
            r.1.v() == self.end_v(),
    {
        (self.start, self.end)
    }
}

impl<T: crate::set::Element> From<T> for Element<T> {
    /// The degenerate one-member run `[t, t]`.
    fn from(t: T) -> (r: Self) {
        Element { start: t, end: t }
    }
}

impl<T: crate::set::Element> vstd::std_specs::convert::FromSpecImpl<T> for Element<T> {
    open spec fn obeys_from_spec() -> bool {
        true
    }

    closed spec fn from_spec(t: T) -> Self {
        Element { start: t, end: t }
    }
}

impl<T: crate::set::Element> From<(T, T)> for Element<T> {
    /// The run `[start, end]` from a pair of presumed-ordered bounds; a pair
    /// out of order gives an element that is not well-formed.
    fn from(bounds: (T, T)) -> (r: Self) {
        Element { start: bounds.0, end: bounds.1 }
    }
}

impl<T: crate::set::Element> vstd::std_specs::convert::FromSpecImpl<(T, T)> for Element<T> {
    open spec fn obeys_from_spec() -> bool {
        true
    }

    closed spec fn from_spec(bounds: (T, T)) -> Self {
        Element { start: bounds.0, end: bounds.1 }
    }
}

} // verus!
