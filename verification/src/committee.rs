//! The committee of an epoch and the context that components share.

use crate::types::{AuthorityIndex, Epoch, Stake};
use vstd::prelude::*;

verus! {

/// Largest stake that can enter the leader shuffle: the sampler takes
/// 32-bit weights.
pub const MAX_SHUFFLE_WEIGHT: u64 = 0xffff_ffff;

/// One committee member.
#[derive(Clone, Debug)]
pub struct Authority {
    pub stake: Stake,
    pub hostname: String,
}

/// Sum of the first `n` stakes.
pub open spec fn stake_total(stakes: Seq<Stake>, n: int) -> int
    decreases n,
{
    if n <= 0 {
        0
    } else {
        stake_total(stakes, n - 1) + stakes[n - 1]
    }
}

/// The authorities of one epoch, each known by its position.
#[derive(Clone, Debug)]
pub struct Committee {
    pub epoch: Epoch,
    pub authorities: Vec<Authority>,
    pub total_stake: Stake,
}

impl Committee {
    /// The stakes of the authorities, by position.
    pub open spec fn stakes(&self) -> Seq<Stake> {
        Seq::new(self.authorities@.len(), |i: int| self.authorities@[i].stake)
    }

    pub open spec fn spec_size(&self) -> int {
        self.authorities@.len() as int
    }

    /// An acceptable list of members: at least one and no more than indices
    /// can name, with some stake in total and no more than a stake can hold.
    pub open spec fn acceptable(authorities: Seq<Authority>) -> bool {
        let stakes = Seq::new(authorities.len(), |i: int| authorities[i].stake);
        &&& 0 < authorities.len() <= u32::MAX
        &&& 0 < stake_total(stakes, authorities.len() as int) <= u64::MAX
    }

    /// The committee is acceptable and its recorded total is the sum of its stakes.
    pub open spec fn wf(&self) -> bool {
        &&& Self::acceptable(self.authorities@)
        &&& self.total_stake == stake_total(self.stakes(), self.spec_size())
    }

    /// Every stake can enter the leader shuffle as a weight.
    pub open spec fn spec_fits_weights(&self) -> bool {
        forall|i: int|
            0 <= i < self.authorities@.len() ==> (#[trigger] self.authorities@[i]).stake
                <= MAX_SHUFFLE_WEIGHT
    }

    /// Whether `index` names a member.
    pub open spec fn spec_is_valid_index(&self, index: AuthorityIndex) -> bool {
        index.0 < self.spec_size()
    }

    /// The sum of the stakes, or `None` where it is more than a stake can hold.
    fn sum_stakes(authorities: &Vec<Authority>) -> (total: Option<Stake>)
        ensures
            ({
                let stakes = Seq::new(authorities@.len(), |i: int| authorities@[i].stake);
                match total {
                    Some(sum) => sum == stake_total(stakes, authorities@.len() as int),
                    None => stake_total(stakes, authorities@.len() as int) > u64::MAX,
                }
            }),
    {
        let n = authorities.len();
        let ghost stakes = Seq::new(authorities@.len(), |i: int| authorities@[i].stake);
        let mut total: u64 = 0;
        let mut i: usize = 0;
        while i < n
            invariant
                n == authorities@.len(),
                i <= n,
                stakes == Seq::new(authorities@.len(), |i: int| authorities@[i].stake),
                total == stake_total(stakes, i as int),
            decreases n - i,
        {
            let stake = authorities[i].stake;
            assert(stakes[i as int] == stake);
            if stake > u64::MAX - total {
                proof {
                    lemma_stake_total_monotone(stakes, i + 1, n as int);
                }
                return None;
            }
            total = total + stake;
            i += 1;
        }
        Some(total)
    }

    /// Builds the committee, or `None` where the list is not acceptable.
    pub fn new(epoch: Epoch, authorities: Vec<Authority>) -> (r: Option<Committee>)
        ensures
            r.is_some() <==> Self::acceptable(authorities@),
            r matches Some(c) ==> c.wf() && c.epoch == epoch && c.authorities == authorities,
    {
        let n = authorities.len();
        if n == 0 || n > 0xffff_ffff {
            return None;
        }
        match Self::sum_stakes(&authorities) {
            Some(total) => {
                if total == 0 {
                    return None;
                }
                Some(Committee { epoch, authorities, total_stake: total })
            },
            None => None,
        }
    }

    /// Whether the committee is well formed, for callers that cannot know.
    pub fn is_well_formed(&self) -> (r: bool)
        ensures
            r == self.wf(),
    {
        let n = self.authorities.len();
        if n == 0 || n > 0xffff_ffff {
            return false;
        }
        match Self::sum_stakes(&self.authorities) {
            Some(total) => total > 0 && total == self.total_stake,
            None => false,
        }
    }

    /// Whether every stake can enter the leader shuffle as a weight.
    pub fn fits_weights(&self) -> (r: bool)
        ensures
            r == self.spec_fits_weights(),
    {
        let mut i: usize = 0;
        while i < self.authorities.len()
            invariant
                i <= self.authorities@.len(),
                forall|j: int|
                    0 <= j < i ==> (#[trigger] self.authorities@[j]).stake <= MAX_SHUFFLE_WEIGHT,
            decreases self.authorities@.len() - i,
        {
            if self.authorities[i].stake > MAX_SHUFFLE_WEIGHT {
                return false;
            }
            i += 1;
        }
        true
    }

    pub fn epoch(&self) -> (r: Epoch)
        ensures
            r == self.epoch,
    {
        self.epoch
    }

    /// Number of members.
    pub fn size(&self) -> (r: usize)
        ensures
            r == self.spec_size(),
    {
        self.authorities.len()
    }

    pub fn total_stake(&self) -> (r: Stake)
        ensures
            r == self.total_stake,
    {
        self.total_stake
    }

    pub fn is_valid_index(&self, index: AuthorityIndex) -> (r: bool)
        ensures
            r == self.spec_is_valid_index(index),
    {
        index.value() < self.authorities.len()
    }

    /// The index that names position `index`, if a member stands there.
    pub fn to_authority_index(&self, index: usize) -> (r: Option<AuthorityIndex>)
        requires
            self.wf(),
        ensures
            index < self.spec_size() ==> r == Some(AuthorityIndex(index as u32)),
            index >= self.spec_size() ==> r.is_none(),
    {
        if index < self.authorities.len() {
            Some(AuthorityIndex(index as u32))
        } else {
            None
        }
    }

    pub fn authority(&self, index: AuthorityIndex) -> (r: &Authority)
        requires
            self.spec_is_valid_index(index),
        ensures
            *r == self.authorities@[index.0 as int],
    {
        &self.authorities[index.value()]
    }

    pub fn stake(&self, index: AuthorityIndex) -> (r: Stake)
        requires
            self.spec_is_valid_index(index),
        ensures
            r == self.stakes()[index.0 as int],
    {
        self.authorities[index.value()].stake
    }
}

/// How the nominal leader of a slot is found before any substitution.
#[derive(Clone, Copy, Debug, PartialEq, Eq, Structural)]
pub enum LeaderElection {
    /// A stake-weighted shuffle of the committee, seeded by the round.
    StakeWeighted,
    /// Authorities take turns in index order; for tests and simulations.
    RoundRobin,
}

/// What every component of one authority shares for an epoch.
#[derive(Clone, Debug)]
pub struct Context {
    pub committee: Committee,
    pub leader_election: LeaderElection,
}

impl Context {
    pub open spec fn wf(&self) -> bool {
        self.committee.wf()
    }

    /// A context that elects leaders by stake.
    pub fn new(committee: Committee) -> (r: Context)
        ensures
            r.committee == committee,
            r.leader_election == LeaderElection::StakeWeighted,
    {
        Context { committee, leader_election: LeaderElection::StakeWeighted }
    }
}


impl Context {
    /// A context over `committee_size` authorities of stake 1 each, with
    /// leaders taking turns in index order.
    pub fn new_for_test(committee_size: usize) -> (r: Context)
        requires
            0 < committee_size <= u32::MAX,
        ensures
            r.wf(),
            r.committee.spec_size() == committee_size,
            r.committee.total_stake == committee_size,
            r.committee.epoch == 0,
            forall|i: int| 0 <= i < committee_size ==> r.committee.stakes()[i] == 1,
            r.committee.spec_fits_weights(),
            r.leader_election == LeaderElection::RoundRobin,
    {
        let mut authorities: Vec<Authority> = Vec::new();
        let mut i: usize = 0;
        while i < committee_size
            invariant
                i <= committee_size <= u32::MAX,
                authorities@.len() == i,
                forall|j: int| 0 <= j < i ==> (#[trigger] authorities@[j]).stake == 1,
                stake_total(
                    Seq::new(authorities@.len(), |k: int| authorities@[k].stake),
                    i as int,
                ) == i,
            decreases committee_size - i,
        {
            let ghost before = Seq::new(authorities@.len(), |k: int| authorities@[k].stake);
            let hostname = String::from_str("test_host_").concat(i.to_string().as_str());
            authorities.push(Authority { stake: 1, hostname });
            i += 1;
            proof {
                let after = Seq::new(authorities@.len(), |k: int| authorities@[k].stake);
                assert(after.take(i - 1) =~= before);
                lemma_stake_total_prefix(after, before, i - 1);
            }
        }
        let committee = Committee { epoch: 0, authorities, total_stake: committee_size as u64 };
        Context { committee, leader_election: LeaderElection::RoundRobin }
    }
}

/// The sum of the first `n` stakes depends on those `n` alone.
pub proof fn lemma_stake_total_prefix(a: Seq<Stake>, b: Seq<Stake>, n: int)
    requires
        0 <= n <= a.len(),
        n <= b.len(),
        forall|i: int| 0 <= i < n ==> a[i] == b[i],
    ensures
        stake_total(a, n) == stake_total(b, n),
    decreases n,
{
    if n > 0 {
        lemma_stake_total_prefix(a, b, n - 1);
    }
}

/// The sum of the first `n` stakes is not negative.
pub proof fn lemma_stake_total_nonnegative(stakes: Seq<Stake>, n: int)
    ensures
        0 <= stake_total(stakes, n),
    decreases n,
{
    if n > 0 {
        lemma_stake_total_nonnegative(stakes, n - 1);
    }
}

/// The sum of the first `n` stakes grows with `n`, and no single stake exceeds it.
pub proof fn lemma_stake_total_monotone(stakes: Seq<Stake>, m: int, n: int)
    requires
        0 <= m <= n <= stakes.len(),
    ensures
        0 <= stake_total(stakes, m) <= stake_total(stakes, n),
        forall|i: int| m <= i < n ==> stake_total(stakes, m) + stakes[i] <= stake_total(stakes, n),
    decreases n - m,
{
    lemma_stake_total_nonnegative(stakes, m);
    if m < n {
        lemma_stake_total_monotone(stakes, m, n - 1);
    }
}

/// Putting one more stake into a list adds it to the sum.
pub proof fn lemma_stake_total_insert(stakes: Seq<Stake>, j: int, stake: Stake)
    requires
        0 <= j <= stakes.len(),
    ensures
        stake_total(stakes.insert(j, stake), stakes.len() as int + 1) == stake_total(
            stakes,
            stakes.len() as int,
        ) + stake,
    decreases stakes.len() - j,
{
    let longer = stakes.insert(j, stake);
    let n = stakes.len() as int;
    if j == n {
        lemma_stake_total_prefix(longer, stakes, n);
    } else {
        let head = stakes.drop_last();
        lemma_stake_total_insert(head, j, stake);
        assert(head.insert(j, stake) =~= longer.drop_last());
        lemma_stake_total_prefix(longer, longer.drop_last(), n);
        lemma_stake_total_prefix(stakes, head, n - 1);
    }
}

/// The first stakes of a list read from the back are the last stakes of the list.
pub proof fn lemma_stake_total_reverse(stakes: Seq<Stake>, b: int)
    requires
        0 <= b <= stakes.len(),
    ensures
        stake_total(stakes.reverse(), b) == stake_total(stakes, stakes.len() as int) - stake_total(
            stakes,
            stakes.len() - b,
        ),
    decreases stakes.len() - b,
{
    let n = stakes.len() as int;
    if b < n {
        lemma_stake_total_reverse(stakes, b + 1);
        assert(stakes.reverse()[b] == stakes[n - 1 - b]);
    } else {
        lemma_stake_total_reverse_all(stakes, n);
    }
}

/// A list read from the back has the sum of the list.
proof fn lemma_stake_total_reverse_all(stakes: Seq<Stake>, n: int)
    requires
        n == stakes.len(),
    ensures
        stake_total(stakes.reverse(), n) == stake_total(stakes, n),
    decreases n,
{
    if n > 0 {
        // The last stake of the list is the first of the list read from the
        // back: take it out of both.
        let rest = stakes.drop_last();
        lemma_stake_total_reverse_all(rest, n - 1);
        assert(stakes.reverse() =~= rest.reverse().insert(0, stakes.last()));
        lemma_stake_total_insert(rest.reverse(), 0, stakes.last());
        lemma_stake_total_prefix(stakes, rest, n - 1);
    }
}

} // verus!
