//! Basic identifiers shared by every component.

use vstd::prelude::*;

verus! {

/// Voting weight of one authority.
pub type Stake = u64;

/// Layer number of the DAG.
pub type Round = u32;

/// Position of a commit in the linear commit sequence. The first commit has index 1.
pub type CommitIndex = u32;

/// Milliseconds since the Unix epoch, as claimed by a block's author.
pub type BlockTimestampMs = u64;

/// Number of the epoch for which a committee is fixed.
pub type Epoch = u64;

/// Position of a committee member, stable for an epoch.
#[derive(Clone, Copy, Debug, PartialEq, Eq, Structural, Hash, PartialOrd, Ord)]
pub struct AuthorityIndex(pub u32);

impl AuthorityIndex {
    /// The index as a position in a per-authority table.
    pub open spec fn spec_value(self) -> int {
        self.0 as int
    }

    /// Wraps a bare position without consulting any committee.
    pub fn new_for_test(index: u32) -> (r: Self)
        ensures
            r == AuthorityIndex(index),
    {
        AuthorityIndex(index)
    }

    /// The index as a position in a per-authority table.
    pub fn value(&self) -> (r: usize)
        ensures
            r as int == self.spec_value(),
    {
        self.0 as usize
    }
}

} // verus!
