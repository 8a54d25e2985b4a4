//! The row-limit counter: the rows still owed to a pushed-down LIMIT.
//! Blocks reserve credit as they survive pruning; once the credit is gone
//! every further block is dropped. The scheme is a safe overshoot: the
//! kept blocks cover at least the limit, possibly more, and the last
//! reservation clips its credit rather than the block.

use vstd::prelude::*;

verus! {

/// The counter. `remaining` is `None` when no limit applies; such a limiter
/// grants every reservation and never changes.
pub struct LimiterPruner {
    pub remaining: Option<u64>,
}

/// Whether a reservation against credit `rem` is granted: always when
/// unbounded, else exactly when credit is left.
pub open spec fn spec_limiter_grant(rem: Option<u64>, row_count: u64) -> bool {
    match rem {
        None => true,
        Some(x) => x > 0,
    }
}

/// The credit after reserving up to `row_count` rows against `rem`: the
/// bounded credit drops by `min(credit, row_count)`.
pub open spec fn spec_limiter_after(rem: Option<u64>, row_count: u64) -> Option<u64> {
    match rem {
        None => None,
        Some(x) => if row_count <= x {
            Some((x - row_count) as u64)
        } else {
            Some(0u64)
        },
    }
}

/// Fresh counter from the effective limit; `None` builds the unbounded limiter.
pub fn new_limiter(limit: Option<u64>) -> (r: LimiterPruner)
    ensures
        r.remaining == limit,
{
    LimiterPruner { remaining: limit }
}

impl LimiterPruner {
    /// True iff the limiter is bounded and its credit is used up.
    pub fn exceeded(&self) -> (r: bool)
        ensures
            r == (self.remaining == Some(0u64)),
    {
        match self.remaining {
            Some(x) => x == 0,
            None => false,
        }
    }

    /// Reserves up to `row_count` rows: the credit drops by
    /// `min(credit, row_count)` and the reservation is granted exactly when
    /// credit was left before the decrement.
    pub fn within_limit(&mut self, row_count: u64) -> (r: bool)
        ensures
            r == spec_limiter_grant(old(self).remaining, row_count),
            final(self).remaining == spec_limiter_after(old(self).remaining, row_count),
    {
        match self.remaining {
            None => true,
            Some(x) => {
                if x == 0 {
                    false
                } else {
                    let take: u64 = if row_count < x {
                        row_count
                    } else {
                        x
                    };
                    self.remaining = Some(x - take);
                    true
                }
            },
        }
    }
}

} // verus!
