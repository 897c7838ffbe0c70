//! Bisection.
use vstd::prelude::*;

verus! {

/// Where bisection from `left` to `right` ends: at an index that the probe calls right
/// (zero), or nowhere. A negative probe sends it to the right, a positive one to the left.
pub open spec fn bisect(probe: spec_fn(int) -> int, left: int, right: int) -> Option<int>
    decreases right - left,
{
    if left >= right {
        None
    } else {
        let mid = left + (right - left) / 2;
        if probe(mid) < 0 {
            bisect(probe, mid + 1, right)
        } else if probe(mid) > 0 {
            bisect(probe, left, mid)
        } else {
            Some(mid)
        }
    }
}

/// Whether the probe goes from negative through at most one zero to positive.
pub open spec fn crosses_once(probe: spec_fn(int) -> int, left: int, right: int) -> bool {
    forall|i: int, j: int|
        #![trigger probe(i), probe(j)]
        left <= i < j < right && probe(i) >= 0 ==> probe(j) > 0
}

/// Bisection only ends at a right index.
pub proof fn lemma_bisect_sound(probe: spec_fn(int) -> int, left: int, right: int)
    ensures
        bisect(probe, left, right) matches Some(i) ==> left <= i < right && probe(i) == 0,
    decreases right - left,
{
    if left < right {
        let mid = left + (right - left) / 2;
        lemma_bisect_sound(probe, mid + 1, right);
        lemma_bisect_sound(probe, left, mid);
    }
}

/// Where the probe crosses zero once, bisection finds the right index.
pub proof fn lemma_bisect_complete(probe: spec_fn(int) -> int, left: int, right: int, i: int)
    requires
        crosses_once(probe, left, right),
        left <= i < right,
        probe(i) == 0,
    ensures
        bisect(probe, left, right) == Some(i),
    decreases right - left,
{
    let mid = left + (right - left) / 2;
    if probe(mid) < 0 {
        if i < mid {
            assert(probe(mid) > 0);
        }
        lemma_bisect_complete(probe, mid + 1, right, i);
    } else if probe(mid) > 0 {
        if mid < i {
            assert(probe(i) > 0);
        }
        lemma_bisect_complete(probe, left, mid, i);
    } else if i != mid {
        assert(probe(i) > 0 || probe(mid) > 0);
    }
}

} // verus!
