//! The parameters of the retention policy.

use vstd::prelude::*;

verus! {

/// How many of the most recent archives of a target are always kept.
pub const RECENT_FLOOR: usize = 5;

/// How many of the latest months of the current year keep their earliest
/// archive. The current month counts as one of them.
pub const MONTH_WINDOW: usize = 2;

/// How many of the latest years keep their earliest archive. The current year
/// counts as one of them.
pub const YEAR_WINDOW: usize = 3;

/// The three parameters of tiered retention.
#[derive(Clone, Copy, Debug, PartialEq, Eq, Structural)]
pub struct RetentionPolicy {
    pub recent_floor: usize,
    pub month_window: usize,
    pub year_window: usize,
}

/// The policy that applies where none is given.
pub open spec fn standard_policy() -> RetentionPolicy {
    RetentionPolicy {
        recent_floor: RECENT_FLOOR,
        month_window: MONTH_WINDOW,
        year_window: YEAR_WINDOW,
    }
}

impl Default for RetentionPolicy {
    fn default() -> (policy: RetentionPolicy)
        ensures
            policy == standard_policy(),
    {
        RetentionPolicy {
            recent_floor: RECENT_FLOOR,
            month_window: MONTH_WINDOW,
            year_window: YEAR_WINDOW,
        }
    }
}

} // verus!
