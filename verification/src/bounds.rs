//! Range endpoints: each side of a range query is independently unbounded,
//! inclusive or exclusive.

use vstd::prelude::*;

verus! {

/// One endpoint of a range query.
#[derive(Clone, Copy, Debug)]
pub enum Bound {
    Unbounded,
    Included(i64),
    Excluded(i64),
}

/// Whether key `k` lies on or above the lower endpoint `lo`.
pub open spec fn above_lower(lo: Bound, k: i64) -> bool {
    match lo {
        Bound::Unbounded => true,
        Bound::Included(x) => k >= x,
        Bound::Excluded(x) => k > x,
    }
}

/// Whether key `k` lies on or below the upper endpoint `hi`.
pub open spec fn below_upper(hi: Bound, k: i64) -> bool {
    match hi {
        Bound::Unbounded => true,
        Bound::Included(x) => k <= x,
        Bound::Excluded(x) => k < x,
    }
}

/// Whether key `k` satisfies both endpoints of the pair `(lo, hi)`.
pub open spec fn in_range(lo: Bound, hi: Bound, k: i64) -> bool {
    above_lower(lo, k) && below_upper(hi, k)
}

/// Failing a lower endpoint is downward closed: anything at or below a
/// failing key fails too.
pub proof fn lemma_lower_monotone(lo: Bound, x: i64, k: i64)
    requires
        !above_lower(lo, x),
        k <= x,
    ensures
        !above_lower(lo, k),
{
}

/// Failing an upper endpoint is upward closed: anything at or above a
/// failing key fails too.
pub proof fn lemma_upper_monotone(hi: Bound, x: i64, k: i64)
    requires
        !below_upper(hi, x),
        k >= x,
    ensures
        !below_upper(hi, k),
{
}

impl Bound {
    /// Decides `above_lower` for this endpoint used as a lower bound.
    pub fn admits_from_below(&self, k: i64) -> (r: bool)
        ensures
            r == above_lower(*self, k),
    {
        match self {
            Bound::Unbounded => true,
            Bound::Included(x) => k >= *x,
            Bound::Excluded(x) => k > *x,
        }
    }

    /// Decides `below_upper` for this endpoint used as an upper bound.
    pub fn admits_from_above(&self, k: i64) -> (r: bool)
        ensures
            r == below_upper(*self, k),
    {
        match self {
            Bound::Unbounded => true,
            Bound::Included(x) => k <= *x,
            Bound::Excluded(x) => k < *x,
        }
    }
}

} // verus!
