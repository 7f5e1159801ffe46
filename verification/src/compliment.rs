//! Deriving the gaps between stored runs: the compliment of a set.

use vstd::prelude::*;

use crate::storage::{lemma_push_contains, pairs_view, ranges_bounded, ranges_separated,
    seq_contains};

verus! {

/// A domain whose extreme values are representable and can be produced,
/// required only to bound the compliment of a set.
pub trait Bounded: crate::set::Element {
    /// The least representable value.
    fn min_value() -> (r: Self)
        ensures
            r.v() == Self::min_v(),
    ;

    /// The greatest representable value.
    fn max_value() -> (r: Self)
        ensures
            r.v() == Self::max_v(),
    ;
}

impl Bounded for u32 {
    fn min_value() -> (r: Self) {
        0
    }

    fn max_value() -> (r: Self) {
        u32::MAX
    }
}

impl Bounded for i32 {
    fn min_value() -> (r: Self) {
        i32::MIN
    }

    fn max_value() -> (r: Self) {
        i32::MAX
    }
}

/// The integer below which the gaps derived so far are complete: the cursor
/// value while it exists, one past the domain otherwise.
spec fn cursor_v<T: crate::set::Element>(cursor: Option<T>) -> int {
    match cursor {
        Some(c) => c.v(),
        None => T::max_v() + 1,
    }
}

/// From the ascending, separated runs in `pairs`, derive the ascending,
/// separated runs that cover exactly the domain values covered by no run of
/// `pairs`, clipped to the domain's extremes. A degenerate gap at either
/// boundary is suppressed, never emitted.
pub fn gaps<T: Bounded>(pairs: &Vec<(T, T)>) -> (r: Vec<(T, T)>)
    requires
        forall|i: int| 0 <= i < pairs@.len() ==> (#[trigger] pairs@[i]).0.v() <= pairs@[i].1.v(),
        forall|i: int|
            0 < i < pairs@.len() ==> (#[trigger] pairs@[i]).0.v() > pairs@[i - 1].1.v() + 1,
    ensures
        ranges_separated(pairs_view(r@)),
        ranges_bounded::<T>(pairs_view(r@)),
        forall|x: int|
            seq_contains(pairs_view(r@), x) == (T::min_v() <= x <= T::max_v() && !seq_contains(
                pairs_view(pairs@),
                x,
            )),
{
    let ghost input = pairs_view(pairs@);
    let mut r: Vec<(T, T)> = Vec::new();
    let bottom = T::min_value();
    proof {
        bottom.v_in_bounds();
        if pairs@.len() > 0 {
            pairs@[0].0.v_in_bounds();
        }
    }
    let mut cursor: Option<T> = Some(bottom);
    let mut i: usize = 0;
    while i < pairs.len()
        invariant
            0 <= i <= pairs@.len(),
            input == pairs_view(pairs@),
            forall|j: int| 0 <= j < pairs@.len() ==> (#[trigger] input[j]).0 <= input[j].1,
            forall|j: int| 0 < j < pairs@.len() ==> (#[trigger] input[j]).0 > input[j - 1].1 + 1,
            i < pairs@.len() ==> cursor.is_some(),
            match cursor {
                Some(c) => T::min_v() <= c.v() <= T::max_v() && (i < pairs@.len() ==> c.v()
                    <= input[i as int].0) && (i == 0 ==> c.v() == T::min_v()) && (i > 0 ==> c.v()
                    == input[i as int - 1].1 + 1),
                None => i > 0 && input[i as int - 1].1 == T::max_v(),
            },
            ranges_separated(pairs_view(r@)),
            ranges_bounded::<T>(pairs_view(r@)),
            forall|j: int|
                0 <= j < r@.len() ==> (#[trigger] pairs_view(r@)[j]).1 + 1 < cursor_v::<T>(cursor),
            forall|x: int|
                seq_contains(pairs_view(r@), x) == (T::min_v() <= x < cursor_v::<T>(cursor)
                    && !seq_contains(pairs_view(pairs@.take(i as int)), x)),
            forall|x: int|
                seq_contains(pairs_view(pairs@.take(i as int)), x) ==> x < cursor_v::<T>(cursor),
        decreases pairs@.len() - i,
    {
        let ghost prefix = pairs_view(pairs@.take(i as int));
        let ghost gaps0 = pairs_view(r@);
        let (s, e) = pairs[i];
        proof {
            assert(input[i as int] == (s.v(), e.v()));
            s.v_in_bounds();
            e.v_in_bounds();
            assert(pairs@.take(i as int + 1) =~= pairs@.take(i as int).push((s, e)));
            assert(pairs_view(pairs@.take(i as int + 1)) =~= prefix.push((s.v(), e.v())));
        }
        let c = cursor.unwrap();
        let needs_gap = !s.le(c);
        if needs_gap {
            let sp = s.prev();
            proof {
                c.v_in_bounds();
            }
            let gap_end = sp.unwrap();
            r.push((c, gap_end));
            proof {
                assert(pairs_view(r@) =~= gaps0.push((c.v(), gap_end.v())));
            }
        }
        cursor = e.next();
        i = i + 1;
        proof {
            let prefix1 = pairs_view(pairs@.take(i as int));
            let gaps1 = pairs_view(r@);
            let cv1 = cursor_v::<T>(cursor);
            assert(cv1 == e.v() + 1);
            if i < pairs@.len() {
                pairs@[i as int].0.v_in_bounds();
                if cursor.is_none() {
                    assert(input[i as int].0 <= T::max_v());
                    assert(input[i as int].0 > e.v() + 1);
                    assert(false);
                }
            }
            assert forall|x: int|
                seq_contains(gaps1, x) == (T::min_v() <= x < cv1 && !seq_contains(
                    prefix1,
                    x,
                )) by {
                lemma_push_contains(prefix, (s.v(), e.v()), x);
                if needs_gap {
                    lemma_push_contains(gaps0, (c.v(), s.v() - 1), x);
                }
            }
            assert forall|x: int| seq_contains(prefix1, x) implies x < cv1 by {
                lemma_push_contains(prefix, (s.v(), e.v()), x);
            }
        }
    }
    proof {
        assert(pairs@.take(i as int) =~= pairs@);
    }
    if let Some(c) = cursor {
        let top = T::max_value();
        let ghost gaps0 = pairs_view(r@);
        r.push((c, top));
        proof {
            assert(pairs_view(r@) =~= gaps0.push((c.v(), T::max_v())));
            assert forall|x: int|
                seq_contains(pairs_view(r@), x) == (T::min_v() <= x <= T::max_v() && !seq_contains(
                    input,
                    x,
                )) by {
                lemma_push_contains(gaps0, (c.v(), T::max_v()), x);
            }
        }
    }
    r
}

} // verus!
