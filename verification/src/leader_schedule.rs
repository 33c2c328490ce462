//! Who leads each slot, and who stands in for leaders that score badly.

use crate::committee::{
    lemma_stake_total_insert, lemma_stake_total_monotone, lemma_stake_total_reverse, stake_total,
    Committee, Context, LeaderElection,
};
use crate::leader_scoring::{
    by_score_desc, is_score_ranking, lemma_by_score_desc_is_ranking, ranking_keys,
    ReputationScores,
};
use crate::ordering::{
    lemma_stable_order_grows, lemma_stable_order_sorted, stable_order, stable_order_of, SortKey,
};
use crate::random::{
    draw_all_weighted, draw_one, drawn_position, election_seed, is_draw_without_replacement, make_election_seed,
    make_swap_seed, swap_seed, uniform_position, weighted_order, weights_of,
};
use crate::types::{AuthorityIndex, Round, Stake};
use std::collections::BTreeMap;
use std::sync::Arc;
use vstd::prelude::*;
use vstd::std_specs::btree::{axiom_increasing_seq_meaning, increasing_seq, spec_btree_map_iter};
use vstd::std_specs::cmp::OrdSpec;
use vstd::std_specs::iter::IteratorSpec;

verus! {

broadcast use {vstd::std_specs::btree::group_btree_axioms, vstd::laws_cmp::group_laws_cmp};

/// An authority of a swap table: its index, and its hostname and stake for display.
pub type Node = (AuthorityIndex, String, Stake);

/// The entry of a swap table for the authority at `index`.
pub open spec fn node_of(committee: &Committee, index: AuthorityIndex) -> Node {
    (
        index,
        committee.authorities@[index.0 as int].hostname,
        committee.authorities@[index.0 as int].stake,
    )
}

/// The stakes of the ranked authorities, in ranking order.
pub open spec fn ranked_stakes(
    committee: &Committee,
    ranking: Seq<(AuthorityIndex, u64)>,
) -> Seq<Stake> {
    Seq::new(ranking.len(), |i: int| committee.stakes()[ranking[i].0.0 as int])
}

/// The stake that a selection may hold: `threshold` percent of the total, rounded down.
pub open spec fn stake_budget(committee: &Committee, threshold: u64) -> int {
    (threshold * committee.total_stake) / 100
}

/// Starting with the first `from` stakes taken, the number taken when the
/// next one would first exceed `budget`, or all of them.
pub open spec fn count_within(stakes: Seq<Stake>, budget: int, from: int) -> int
    decreases stakes.len() - from,
{
    if from < 0 || from >= stakes.len() || stake_total(stakes, from + 1) > budget {
        from
    } else {
        count_within(stakes, budget, from + 1)
    }
}

/// The longest run of authorities at the head of `ranking` whose stakes
/// together stay within `threshold` percent of the total stake.
pub open spec fn first_nodes(
    committee: &Committee,
    ranking: Seq<(AuthorityIndex, u64)>,
    threshold: u64,
) -> Seq<Node> {
    let count = count_within(
        ranked_stakes(committee, ranking),
        stake_budget(committee, threshold),
        0,
    );
    Seq::new(count as nat, |i: int| node_of(committee, ranking[i].0))
}

/// The nodes as a mapping from index to hostname and stake.
pub open spec fn nodes_by_index(nodes: Seq<Node>) -> Map<u32, (String, Stake)>
    decreases nodes.len(),
{
    if nodes.len() == 0 {
        Map::empty()
    } else {
        nodes_by_index(nodes.drop_last()).insert(nodes.last().0.0, (nodes.last().1, nodes.last().2))
    }
}

/// The authorities that stand in for bad leaders, and the bad leaders.
#[derive(Clone, Debug)]
pub struct LeaderSwapTable {
    /// The best scoring authorities, up to a share of the stake.
    pub good_nodes: Vec<Node>,
    /// The worst scoring authorities, up to the same share of the stake.
    pub bad_nodes: BTreeMap<u32, (String, Stake)>,
    /// The scores from which the table was built.
    pub reputation_scores: ReputationScores,
}

impl Default for LeaderSwapTable {
    fn default() -> (r: Self)
        ensures
            r.good_nodes@.len() == 0,
            r.bad_nodes@ == Map::<u32, (String, Stake)>::empty(),
            r.reputation_scores.scores_per_authority@.len() == 0,
            r.reputation_scores.commit_range.spec_is_initial(),
    {
        LeaderSwapTable {
            good_nodes: Vec::new(),
            bad_nodes: BTreeMap::new(),
            reputation_scores: ReputationScores::default(),
        }
    }
}

impl LeaderSwapTable {
    /// Largest share of the total stake, in percent, that either side of a table may hold.
    pub const MAX_SWAP_STAKE_THRESHOLD: u64 = 33;

    /// Every node is a member of `committee` with the stake recorded there,
    /// and no node holds more than a third of the total stake.
    pub open spec fn wf(&self, committee: &Committee) -> bool {
        &&& forall|i: int|
            0 <= i < self.good_nodes@.len() ==> {
                let node = #[trigger] self.good_nodes@[i];
                &&& node.0.0 < committee.spec_size()
                &&& node.2 == committee.stakes()[node.0.0 as int]
                &&& 100 * node.2 <= 33 * committee.total_stake
            }
        &&& forall|k: u32| #[trigger]
            self.bad_nodes@.contains_key(k) ==> {
                &&& k < committee.spec_size()
                &&& self.bad_nodes@[k].1 == committee.stakes()[k as int]
                &&& 100 * self.bad_nodes@[k].1 <= 33 * committee.total_stake
            }
    }

    pub open spec fn spec_is_bad(&self, leader: AuthorityIndex) -> bool {
        self.bad_nodes@.contains_key(leader.0)
    }

    /// Whether `swap` can say who leads in place of `leader`: a bad leader
    /// can only be replaced at offset 0, and only where a good node exists.
    pub open spec fn spec_can_swap(&self, leader: AuthorityIndex, leader_offset: u32) -> bool {
        self.spec_is_bad(leader) ==> leader_offset == 0 && self.good_nodes@.len() > 0
    }

    /// Who leads in place of `leader`, if anyone.
    pub open spec fn spec_swap(
        &self,
        leader: AuthorityIndex,
        leader_round: Round,
        leader_offset: u32,
    ) -> Option<AuthorityIndex> {
        if self.spec_is_bad(leader) && self.good_nodes@.len() > 0 {
            Some(
                self.good_nodes@[drawn_position(
                    swap_seed(leader_round, leader_offset),
                    self.good_nodes@.len(),
                )].0,
            )
        } else {
            None
        }
    }

    /// The first authorities of `authorities` whose stakes together stay
    /// within `stake_threshold` percent of the total stake. The caller
    /// brings the authorities in the order that matters.
    pub fn retrieve_first_nodes(
        context: &Context,
        authorities: Vec<(AuthorityIndex, u64)>,
        stake_threshold: u64,
    ) -> (nodes: Vec<Node>)
        requires
            context.wf(),
            forall|i: int|
                0 <= i < authorities@.len() ==> context.committee.spec_is_valid_index(
                    (#[trigger] authorities@[i]).0,
                ),
        ensures
            nodes@ == first_nodes(&context.committee, authorities@, stake_threshold),
            nodes@.len() <= authorities@.len(),
            forall|i: int|
                0 <= i < nodes@.len() ==> 100 * (#[trigger] nodes@[i]).2 <= stake_threshold
                    * context.committee.total_stake,
    {
        let committee = &context.committee;
        let ghost stakes = ranked_stakes(committee, authorities@);
        let ghost budget_limit = stake_budget(committee, stake_threshold);
        let total = committee.total_stake();
        assert(stake_threshold * total <= 0xffff_ffff_ffff_fffe_0000_0000_0000_0001) by (nonlinear_arith)
            requires
                stake_threshold <= 0xffff_ffff_ffff_ffff,
                total <= 0xffff_ffff_ffff_ffff,
        ;
        let budget: u128 = (stake_threshold as u128 * total as u128) / 100;
        let n = authorities.len();
        let mut nodes: Vec<Node> = Vec::new();
        let mut stake: u128 = 0;
        let mut i: usize = 0;
        while i < n
            invariant
                context.wf(),
                committee == &context.committee,
                n == authorities@.len(),
                forall|k: int|
                    0 <= k < authorities@.len() ==> committee.spec_is_valid_index(
                        (#[trigger] authorities@[k]).0,
                    ),
                stakes == ranked_stakes(committee, authorities@),
                budget_limit == stake_budget(committee, stake_threshold),
                budget == budget_limit,
                budget <= 0xffff_ffff_ffff_fffe_0000_0000_0000_0001,
                i <= n,
                stake == stake_total(stakes, i as int),
                stake <= budget,
                count_within(stakes, budget_limit, 0) == count_within(stakes, budget_limit, i as int),
                nodes@.len() == i,
                forall|k: int| 0 <= k < i ==> nodes@[k] == node_of(committee, authorities@[k].0),
                forall|k: int| 0 <= k < i ==> (#[trigger] nodes@[k]).2 <= stake,
                total == committee.total_stake,
            decreases n - i,
        {
            let authority_idx = authorities[i].0;
            let authority = committee.authority(authority_idx);
            assert(stakes[i as int] == authority.stake);
            let reached: u128 = stake + authority.stake as u128;
            // The authority that would take the selection past the budget is
            // left out, and so is everyone after it.
            if reached > budget {
                assert(nodes@ =~= first_nodes(committee, authorities@, stake_threshold));
                proof {
                    lemma_within_share(budget as int, stake_threshold as int, total as int);
                }
                return nodes;
            }
            stake = reached;
            nodes.push((authority_idx, authority.hostname.clone(), authority.stake));
            i += 1;
        }
        assert(nodes@ =~= first_nodes(committee, authorities@, stake_threshold));
        proof {
            lemma_within_share(budget as int, stake_threshold as int, total as int);
        }
        nodes
    }
}

/// A hundred times a share rounded down does not exceed the whole it was taken from.
proof fn lemma_within_share(budget: int, threshold: int, total: int)
    requires
        0 <= threshold,
        0 <= total,
        budget == (threshold * total) / 100,
    ensures
        100 * budget <= threshold * total,
{
    assert(0 <= threshold * total) by (nonlinear_arith)
        requires
            0 <= threshold,
            0 <= total,
    ;
    let whole = threshold * total;
    assert(100 * (whole / 100) <= whole) by (nonlinear_arith)
        requires
            0 <= whole,
    ;
}


impl LeaderSwapTable {
    /// The table is the one built for `reputation_scores`: it keeps the
    /// scores; its good nodes are the best scoring authorities, from the best
    /// down, as far as their stakes together stay within `threshold` percent
    /// of the total; its bad nodes are the worst scoring ones, from the worst
    /// up, within the same share.
    pub open spec fn spec_is_built(
        &self,
        committee: &Committee,
        reputation_scores: ReputationScores,
        threshold: u64,
    ) -> bool {
        &&& self.reputation_scores == reputation_scores
        &&& self.good_nodes@ == first_nodes(
            committee,
            by_score_desc(reputation_scores.scores_per_authority@),
            threshold,
        )
        &&& self.bad_nodes@ == nodes_by_index(
            first_nodes(
                committee,
                by_score_desc(reputation_scores.scores_per_authority@).reverse(),
                threshold,
            ),
        )
    }

    /// Whether a table can be built: the committee is well formed, no score
    /// is for an authority that the committee does not have, and the
    /// threshold is a third of the stake at most.
    pub open spec fn spec_can_build(
        context: &Context,
        reputation_scores: &ReputationScores,
        swap_stake_threshold: u64,
    ) -> bool {
        &&& context.wf()
        &&& reputation_scores.scores_per_authority@.len() <= context.committee.spec_size()
        &&& swap_stake_threshold <= Self::MAX_SWAP_STAKE_THRESHOLD
    }

    /// Builds the table for `reputation_scores`, or `None` where none can be built.
    pub fn try_new(
        context: Arc<Context>,
        reputation_scores: ReputationScores,
        swap_stake_threshold: u64,
    ) -> (r: Option<Self>)
        ensures
            r.is_some() <==> Self::spec_can_build(&context, &reputation_scores, swap_stake_threshold),
            r matches Some(table) ==> {
                &&& table.spec_is_built(&context.committee, reputation_scores, swap_stake_threshold)
                &&& table.wf(&context.committee)
                &&& reputation_scores.scores_per_authority@.len()
                    == context.committee.spec_size() ==> table.spec_is_disjoint()
            },
    {
        if swap_stake_threshold > Self::MAX_SWAP_STAKE_THRESHOLD {
            return None;
        }
        if !context.committee.is_well_formed() {
            return None;
        }
        if reputation_scores.scores_per_authority.len() > context.committee.size() {
            return None;
        }
        Some(Self::new(context, reputation_scores, swap_stake_threshold))
    }

    /// Builds the table for `reputation_scores`: the best scoring authorities
    /// that together stay within `swap_stake_threshold` percent of the total
    /// stake are good, the worst scoring ones within the same share are bad.
    /// With a small threshold either side may be empty.
    pub fn new(
        context: Arc<Context>,
        reputation_scores: ReputationScores,
        swap_stake_threshold: u64,
    ) -> (table: Self)
        requires
            Self::spec_can_build(&context, &reputation_scores, swap_stake_threshold),
        ensures
            table.spec_is_built(&context.committee, reputation_scores, swap_stake_threshold),
            table.wf(&context.committee),
            reputation_scores.scores_per_authority@.len() == context.committee.spec_size()
                ==> table.spec_is_disjoint(),
    {
        let ghost scores = reputation_scores.scores_per_authority@;
        let ghost total = context.committee.total_stake;
        let ranking = reputation_scores.authorities_by_score_desc(&context);

        // The same ranking from the worst score up.
        let n = ranking.len();
        let mut reversed: Vec<(AuthorityIndex, u64)> = Vec::new();
        let mut i: usize = 0;
        while i < n
            invariant
                n == ranking@.len(),
                i <= n,
                reversed@.len() == i,
                forall|k: int| 0 <= k < i ==> reversed@[k] == ranking@[n - 1 - k],
            decreases n - i,
        {
            reversed.push(ranking[n - 1 - i]);
            i += 1;
        }
        assert(reversed@ =~= ranking@.reverse());

        let good_nodes = Self::retrieve_first_nodes(&context, ranking, swap_stake_threshold);
        let worst = Self::retrieve_first_nodes(&context, reversed, swap_stake_threshold);

        assert(swap_stake_threshold * total <= 33 * total) by (nonlinear_arith)
            requires
                swap_stake_threshold <= 33,
                0 <= total,
        ;
        let mut bad_nodes: BTreeMap<u32, (String, Stake)> = BTreeMap::new();
        let mut j: usize = 0;
        while j < worst.len()
            invariant
                context.wf(),
                j <= worst@.len(),
                total == context.committee.total_stake,
                swap_stake_threshold * total <= 33 * total,
                worst@ == first_nodes(
                    &context.committee,
                    by_score_desc(scores).reverse(),
                    swap_stake_threshold,
                ),
                worst@.len() <= scores.len() <= context.committee.spec_size(),
                is_score_ranking(scores, by_score_desc(scores)),
                forall|k: int|
                    0 <= k < worst@.len() ==> 100 * (#[trigger] worst@[k]).2
                        <= swap_stake_threshold * total,
                bad_nodes@ == nodes_by_index(worst@.take(j as int)),
                forall|k: u32| #[trigger]
                    bad_nodes@.contains_key(k) ==> {
                        &&& k < context.committee.spec_size()
                        &&& bad_nodes@[k].1 == context.committee.stakes()[k as int]
                        &&& 100 * bad_nodes@[k].1 <= 33 * total
                    },
            decreases worst@.len() - j,
        {
            let idx = worst[j].0;
            let hostname = worst[j].1.clone();
            let stake = worst[j].2;
            proof {
                let back = by_score_desc(scores).reverse();
                assert(worst@[j as int] == node_of(&context.committee, back[j as int].0));
                assert(back[j as int] == by_score_desc(scores)[scores.len() - 1 - j]);
                assert(worst@.take(j + 1).drop_last() =~= worst@.take(j as int));
                assert(worst@.take(j + 1).last() == worst@[j as int]);
            }
            bad_nodes.insert(idx.0, (hostname, stake));
            j += 1;
        }
        assert(worst@.take(worst@.len() as int) =~= worst@);
        proof {
            let best = by_score_desc(scores);
            assert forall|k: int| 0 <= k < good_nodes@.len() implies {
                let node = #[trigger] good_nodes@[k];
                &&& node.0.0 < context.committee.spec_size()
                &&& node.2 == context.committee.stakes()[node.0.0 as int]
                &&& 100 * node.2 <= 33 * context.committee.total_stake
            } by {
                assert(good_nodes@[k] == node_of(&context.committee, best[k].0));
            }
            if scores.len() == context.committee.spec_size() {
                lemma_good_and_bad_are_disjoint(&context.committee, scores, swap_stake_threshold);
            }
        }
        LeaderSwapTable { good_nodes, bad_nodes, reputation_scores }
    }

    /// Whether `leader` is among the bad nodes.
    pub fn is_bad(&self, leader: AuthorityIndex) -> (r: bool)
        ensures
            r == self.spec_is_bad(leader),
    {
        self.bad_nodes.contains_key(&leader.0)
    }

    /// Whether `swap` can be asked about `leader` at `leader_offset`.
    pub fn can_swap(&self, leader: AuthorityIndex, leader_offset: u32) -> (r: bool)
        ensures
            r == self.spec_can_swap(leader, leader_offset),
    {
        !self.is_bad(leader) || (leader_offset == 0 && self.good_nodes.len() > 0)
    }

    /// Says who leads in place of `leader` in the slot `(leader_round,
    /// leader_offset)`: nobody where `leader` is not a bad node, otherwise one
    /// of the good nodes, each equally likely, drawn from a generator seeded
    /// with the slot.
    pub fn swap(&self, leader: AuthorityIndex, leader_round: Round, leader_offset: u32) -> (r:
        Option<AuthorityIndex>)
        requires
            self.spec_can_swap(leader, leader_offset),
        ensures
            r == self.spec_swap(leader, leader_round, leader_offset),
            r.is_some() <==> self.spec_is_bad(leader),
            r matches Some(substitute) ==> exists|i: int|
                0 <= i < self.good_nodes@.len() && (#[trigger] self.good_nodes@[i]).0
                    == substitute,
    {
        if self.is_bad(leader) {
            let seed = make_swap_seed(leader_round, leader_offset);
            let drawn = draw_one(&seed, &self.good_nodes);
            proof {
                let position = uniform_position(seed@, self.good_nodes@.len());
                assert(self.good_nodes@[position].0 == drawn.unwrap());
            }
            return drawn;
        }
        None
    }
}


/// Number of commits after which the schedule is to be recomputed.
pub const CONSENSUS_COMMITS_PER_SCHEDULE: u64 = 300;

/// The weights with which the authorities enter the leader shuffle: their stakes.
pub open spec fn election_weights(committee: &Committee) -> Seq<u32> {
    Seq::new(committee.authorities@.len(), |i: int| committee.authorities@[i].stake as u32)
}

/// The leader that the stake-weighted shuffle of `round` puts at `offset`.
pub open spec fn stake_based_leader(committee: &Committee, round: Round, offset: u32) -> AuthorityIndex {
    AuthorityIndex(
        weighted_order(election_seed(round), election_weights(committee))[offset as int] as u32,
    )
}

/// The leader of a slot where authorities take turns in index order.
pub open spec fn round_robin_leader(committee: &Committee, round: Round, offset: u32) -> AuthorityIndex {
    AuthorityIndex(((round + offset) % committee.spec_size()) as u32)
}

/// Names the leader of every slot of an epoch. The swap table through which
/// leaders pass is replaced as a whole whenever new scores are in.
pub struct LeaderSchedule {
    pub context: Arc<Context>,
    pub num_commits_per_schedule: u64,
    pub leader_swap_table: LeaderSwapTable,
}

impl LeaderSchedule {
    pub open spec fn wf(&self) -> bool {
        &&& self.context.wf()
        &&& self.leader_swap_table.wf(&self.context.committee)
    }

    pub open spec fn spec_size(&self) -> int {
        self.context.committee.spec_size()
    }

    /// The leader of the slot before any substitution.
    pub open spec fn spec_nominal_leader(&self, round: Round, offset: u32) -> AuthorityIndex {
        match self.context.leader_election {
            LeaderElection::StakeWeighted => stake_based_leader(
                &self.context.committee,
                round,
                offset,
            ),
            LeaderElection::RoundRobin => round_robin_leader(&self.context.committee, round, offset),
        }
    }

    /// The leader of the slot: the nominal leader, or who the swap table
    /// puts in its place.
    pub open spec fn spec_elect_leader(&self, round: Round, offset: u32) -> AuthorityIndex {
        let nominal = self.spec_nominal_leader(round, offset);
        match self.leader_swap_table.spec_swap(nominal, round, offset) {
            Some(substitute) => substitute,
            None => nominal,
        }
    }

    /// Whether the nominal leader of a slot can be found: the offset is below
    /// the committee size, and where leaders are shuffled by stake, every
    /// stake can enter the shuffle as a weight.
    pub open spec fn spec_can_nominate(&self, offset: u32) -> bool {
        &&& offset < self.spec_size()
        &&& self.context.leader_election == LeaderElection::StakeWeighted
            ==> self.context.committee.spec_fits_weights()
    }

    /// Whether the leader of the slot can be named: the nominal leader can be
    /// found, and the swap table can be asked about it.
    pub open spec fn spec_can_elect(&self, round: Round, offset: u32) -> bool {
        &&& self.spec_can_nominate(offset)
        &&& self.leader_swap_table.spec_can_swap(self.spec_nominal_leader(round, offset), offset)
    }

    /// The nominal leaders of `round` are members, and differ from offset to offset.
    pub open spec fn nominal_leaders_differ(&self, round: Round) -> bool {
        &&& forall|a: u32|
            a < self.spec_size() ==> (#[trigger] self.spec_nominal_leader(round, a)).0
                < self.spec_size()
        &&& forall|a: u32, b: u32|
            a < b < self.spec_size() ==> #[trigger] self.spec_nominal_leader(round, a)
                != #[trigger] self.spec_nominal_leader(round, b)
    }

    /// Whether `table` may replace the current table: either no scores were
    /// installed yet, or the scores of `table` cover the range of commits
    /// that follows the current one, at the same length.
    pub open spec fn spec_accepts(&self, table: &LeaderSwapTable) -> bool {
        let current = self.leader_swap_table.reputation_scores.commit_range;
        current.spec_is_initial() || current.spec_is_next_range(
            table.reputation_scores.commit_range,
        )
    }

    pub fn new(context: Arc<Context>, leader_swap_table: LeaderSwapTable) -> (r: Self)
        ensures
            r.context == context,
            r.leader_swap_table == leader_swap_table,
            r.num_commits_per_schedule == CONSENSUS_COMMITS_PER_SCHEDULE,
    {
        LeaderSchedule {
            context,
            num_commits_per_schedule: CONSENSUS_COMMITS_PER_SCHEDULE,
            leader_swap_table,
        }
    }

    /// The leader that the stake-weighted shuffle of `round` puts at
    /// `offset`. The generator is seeded with the round alone, so all offsets
    /// of a round read one shuffle, and no two of them name the same leader.
    pub fn elect_leader_stake_based(&self, round: u32, offset: u32) -> (leader: AuthorityIndex)
        requires
            self.context.wf(),
            self.context.committee.spec_fits_weights(),
            offset < self.spec_size(),
        ensures
            leader == stake_based_leader(&self.context.committee, round, offset),
            leader.0 < self.spec_size(),
            is_draw_without_replacement(
                weighted_order(election_seed(round), election_weights(&self.context.committee)),
                self.spec_size(),
            ),
            forall|other: u32|
                other < self.spec_size() && other != offset ==> leader != #[trigger] stake_based_leader(
                    &self.context.committee,
                    round,
                    other,
                ),
    {
        let committee = &self.context.committee;
        let seed = make_election_seed(round);
        let size = committee.size();
        let mut choices: Vec<(u32, u32)> = Vec::new();
        let mut i: usize = 0;
        while i < size
            invariant
                self.context.wf(),
                committee == &self.context.committee,
                committee.spec_fits_weights(),
                size == committee.spec_size(),
                i <= size,
                choices@.len() == i,
                forall|k: int|
                    0 <= k < i ==> choices@[k] == (
                        k as u32,
                        committee.authorities@[k].stake as u32,
                    ),
            decreases size - i,
        {
            let stake = committee.stake(AuthorityIndex(i as u32));
            choices.push((i as u32, stake as u32));
            i += 1;
        }
        assert(weights_of(choices@) =~= election_weights(committee));
        let drawn = draw_all_weighted(&seed, &choices);
        let order = drawn.unwrap();
        let leader = AuthorityIndex(order[offset as usize]);
        proof {
            let positions = weighted_order(election_seed(round), election_weights(committee));
            assert forall|other: u32| other < self.spec_size() && other != offset implies leader
                != #[trigger] stake_based_leader(committee, round, other) by {
                assert(positions[other as int] != positions[offset as int]);
            }
        }
        leader
    }

    /// The nominal leader of the slot, by the election that the context asks for.
    fn nominal_leader(&self, round: u32, offset: u32) -> (leader: AuthorityIndex)
        requires
            self.context.wf(),
            self.spec_can_nominate(offset),
        ensures
            leader == self.spec_nominal_leader(round, offset),
            self.nominal_leaders_differ(round),
    {
        match self.context.leader_election {
            LeaderElection::StakeWeighted => {
                let leader = self.elect_leader_stake_based(round, offset);
                proof {
                    let committee = &self.context.committee;
                    let positions = weighted_order(
                        election_seed(round),
                        election_weights(committee),
                    );
                    assert forall|a: u32, b: u32| a < b < self.spec_size() implies #[trigger] self.spec_nominal_leader(
                        round,
                        a,
                    ) != #[trigger] self.spec_nominal_leader(round, b) by {
                        assert(positions[a as int] != positions[b as int]);
                    }
                    assert forall|a: u32| a < self.spec_size() implies (#[trigger] self.spec_nominal_leader(
                        round,
                        a,
                    )).0 < self.spec_size() by {
                        assert(0 <= positions[a as int] < self.spec_size());
                    }
                }
                leader
            },
            LeaderElection::RoundRobin => {
                let size = self.context.committee.size() as u64;
                let turn = (round as u64 + offset as u64) % size;
                proof {
                    lemma_round_robin_differs(&self.context.committee, round);
                }
                AuthorityIndex(turn as u32)
            },
        }
    }

    /// The leader of the slot `(round, leader_offset)`: the nominal leader,
    /// or, where the swap table lists that one as bad, the good node that the
    /// table puts in its place.
    ///
    /// The result depends on the committee, the swap table and the slot alone.
    /// Where the committee has more than one member and every offset of the
    /// round can be asked for, at least two offsets have different leaders.
    pub fn elect_leader(&self, round: u32, leader_offset: u32) -> (leader: AuthorityIndex)
        requires
            self.context.wf(),
            self.spec_can_elect(round, leader_offset),
        ensures
            leader == self.spec_elect_leader(round, leader_offset),
            self.wf() ==> leader.0 < self.spec_size(),
            self.wf() && self.spec_size() > 1 && (forall|offset: u32|
                offset < self.spec_size() ==> #[trigger] self.spec_can_elect(round, offset))
                ==> exists|a: u32, b: u32|
                a < self.spec_size() && b < self.spec_size() && #[trigger] self.spec_elect_leader(
                    round,
                    a,
                ) != #[trigger] self.spec_elect_leader(round, b),
    {
        let nominal = self.nominal_leader(round, leader_offset);
        proof {
            if self.wf() && self.spec_size() > 1 && (forall|offset: u32|
                offset < self.spec_size() ==> #[trigger] self.spec_can_elect(round, offset)) {
                lemma_two_offsets_differ(self, round);
            }
        }
        match self.leader_swap_table.swap(nominal, round, leader_offset) {
            Some(substitute) => substitute,
            None => nominal,
        }
    }

    /// The leader of the slot, or `None` where it cannot be named: the offset
    /// is not below the committee size, or leaders are shuffled by stake and
    /// a stake is too large for a weight, or the nominal leader is a bad node
    /// and the table cannot replace it (the offset is not 0, or there is no
    /// good node).
    pub fn try_elect_leader(&self, round: u32, leader_offset: u32) -> (leader: Option<
        AuthorityIndex,
    >)
        requires
            self.context.wf(),
        ensures
            leader.is_some() <==> self.spec_can_elect(round, leader_offset),
            leader matches Some(elected) ==> elected == self.spec_elect_leader(
                round,
                leader_offset,
            ),
    {
        if leader_offset as usize >= self.context.committee.size() {
            return None;
        }
        match self.context.leader_election {
            LeaderElection::StakeWeighted => {
                if !self.context.committee.fits_weights() {
                    return None;
                }
            },
            LeaderElection::RoundRobin => {},
        }
        let nominal = self.nominal_leader(round, leader_offset);
        if !self.leader_swap_table.can_swap(nominal, leader_offset) {
            return None;
        }
        Some(self.elect_leader(round, leader_offset))
    }

    /// Whether `table` may replace the current table.
    pub fn accepts(&self, table: &LeaderSwapTable) -> (r: bool)
        ensures
            r == self.spec_accepts(table),
    {
        let current = &self.leader_swap_table.reputation_scores.commit_range;
        current.is_initial() || current.is_next_range(&table.reputation_scores.commit_range)
    }

    /// Replaces the swap table by `table` if `table` may replace it, and
    /// otherwise changes nothing and hands `table` back.
    pub fn try_update_leader_swap_table(&mut self, table: LeaderSwapTable) -> (r: Result<
        (),
        LeaderSwapTable,
    >)
        ensures
            r.is_ok() <==> old(self).spec_accepts(&table),
            r.is_ok() ==> final(self).leader_swap_table == table && final(self).context == old(
                self,
            ).context && final(self).num_commits_per_schedule == old(
                self,
            ).num_commits_per_schedule,
            r matches Err(refused) ==> refused == table && *final(self) == *old(self),
    {
        if !self.accepts(&table) {
            return Err(table);
        }
        self.update_leader_swap_table(table);
        Ok(())
    }

    /// Replaces the swap table as a whole. Every leader asked for from now on
    /// passes through `table`.
    pub fn update_leader_swap_table(&mut self, table: LeaderSwapTable)
        requires
            old(self).spec_accepts(&table),
        ensures
            final(self).leader_swap_table == table,
            final(self).context == old(self).context,
            final(self).num_commits_per_schedule == old(self).num_commits_per_schedule,
    {
        self.leader_swap_table = table;
    }
}

/// Where authorities take turns, the leaders of a round are members and
/// differ from offset to offset.
pub proof fn lemma_round_robin_differs(committee: &Committee, round: Round)
    requires
        committee.wf(),
    ensures
        forall|a: u32|
            a < committee.spec_size() ==> (#[trigger] round_robin_leader(committee, round, a)).0
                < committee.spec_size(),
        forall|a: u32, b: u32|
            a < b < committee.spec_size() ==> #[trigger] round_robin_leader(committee, round, a)
                != #[trigger] round_robin_leader(committee, round, b),
{
    let n = committee.spec_size();
    assert forall|a: u32, b: u32| a < b < n implies #[trigger] round_robin_leader(
        committee,
        round,
        a,
    ) != #[trigger] round_robin_leader(committee, round, b) by {
        let x = round as int + a as int;
        let y = round as int + b as int;
        assert(x % n != y % n) by (nonlinear_arith)
            requires
                0 <= x < y,
                y - x < n,
        {
            // x = q1*n + r, y = q2*n + r would make y - x a positive multiple of n
            let d = y / n - x / n;
            assert(x == n * (x / n) + x % n);
            assert(y == n * (y / n) + y % n);
            if x % n == y % n {
                assert(y - x == n * d);
                assert(d >= 1);
            }
        }
        assert(0 <= x % n < n && 0 <= y % n < n) by (nonlinear_arith)
            requires
                0 <= x,
                0 <= y,
                0 < n,
        ;
    }
    assert forall|a: u32| a < n implies (#[trigger] round_robin_leader(committee, round, a)).0
        < n by {
        let x = round as int + a as int;
        assert(0 <= x % n < n) by (nonlinear_arith)
            requires
                0 <= x,
                0 < n,
        ;
    }
}

/// In a committee of more than one member, where every offset of a round can
/// be asked for, at least two offsets of the round have different leaders.
pub proof fn lemma_two_offsets_differ(schedule: &LeaderSchedule, round: Round)
    requires
        schedule.wf(),
        schedule.spec_size() > 1,
        schedule.nominal_leaders_differ(round),
        forall|offset: u32|
            offset < schedule.spec_size() ==> #[trigger] schedule.spec_can_elect(round, offset),
    ensures
        exists|a: u32, b: u32|
            a < schedule.spec_size() && b < schedule.spec_size()
                && #[trigger] schedule.spec_elect_leader(round, a)
                != #[trigger] schedule.spec_elect_leader(round, b),
{
    let committee = &schedule.context.committee;
    let table = &schedule.leader_swap_table;
    let n = schedule.spec_size();
    // No offset but the first can have a substitute.
    assert(schedule.spec_can_elect(round, 1));
    assert(schedule.spec_elect_leader(round, 1) == schedule.spec_nominal_leader(round, 1));
    if n > 2 {
        assert(schedule.spec_can_elect(round, 2));
        assert(schedule.spec_nominal_leader(round, 1) != schedule.spec_nominal_leader(round, 2));
        assert(schedule.spec_elect_leader(round, 1) != schedule.spec_elect_leader(round, 2));
    } else {
        let first = schedule.spec_nominal_leader(round, 0);
        let second = schedule.spec_nominal_leader(round, 1);
        assert(schedule.spec_can_elect(round, 0));
        assert(first != second);
        assert(first.0 < 2 && second.0 < 2);
        if table.spec_is_bad(first) {
            // A bad node and a good node hold at most a third of the stake
            // each, so two of them do not make up a committee.
            let position = drawn_position(swap_seed(round, 0), table.good_nodes@.len());
            let substitute = table.good_nodes@[position];
            if substitute.0 == second {
                assert(table.bad_nodes@.contains_key(first.0));
                let stakes = committee.stakes();
                assert(stake_total(stakes, 2) == stake_total(stakes, 1) + stakes[1]);
                assert(stake_total(stakes, 1) == stake_total(stakes, 0) + stakes[0]);
                assert(committee.total_stake == stakes[0] + stakes[1]);
                assert(false);
            }
            assert(schedule.spec_elect_leader(round, 0) != schedule.spec_elect_leader(round, 1));
        } else {
            assert(schedule.spec_elect_leader(round, 0) != schedule.spec_elect_leader(round, 1));
        }
    }
}

/// Two schedules over committees of the same stakes, with the same election
/// and swap tables of the same good and bad nodes, name the same leader for
/// every slot.
pub proof fn lemma_elect_leader_is_determined(
    one: &LeaderSchedule,
    other: &LeaderSchedule,
    round: Round,
    offset: u32,
)
    requires
        one.context.committee.stakes() == other.context.committee.stakes(),
        one.context.leader_election == other.context.leader_election,
        one.leader_swap_table.good_nodes@ == other.leader_swap_table.good_nodes@,
        one.leader_swap_table.bad_nodes@.dom() == other.leader_swap_table.bad_nodes@.dom(),
    ensures
        one.spec_elect_leader(round, offset) == other.spec_elect_leader(round, offset),
{
    let a = &one.context.committee;
    let b = &other.context.committee;
    assert(a.authorities@.len() == b.authorities@.len()) by {
        assert(a.stakes().len() == b.stakes().len());
    }
    assert(election_weights(a) =~= election_weights(b)) by {
        assert forall|i: int| 0 <= i < a.authorities@.len() implies a.authorities@[i].stake
            == b.authorities@[i].stake by {
            assert(a.stakes()[i] == b.stakes()[i]);
        }
    }
    let nominal = one.spec_nominal_leader(round, offset);
    assert(nominal == other.spec_nominal_leader(round, offset));
    assert(one.leader_swap_table.spec_is_bad(nominal) == other.leader_swap_table.spec_is_bad(
        nominal,
    )) by {
        assert(one.leader_swap_table.bad_nodes@.dom().contains(nominal.0)
            == other.leader_swap_table.bad_nodes@.dom().contains(nominal.0));
    }
}


/// The text that `format` makes of a swap table's range of commits, the
/// indices of its good nodes with their stake, and the indices of its bad
/// nodes with their stake.
pub uninterp spec fn rendered_swap_table(
    range_start: u32,
    range_end: u32,
    good: Seq<u32>,
    good_stake: u128,
    bad: Seq<u32>,
    bad_stake: u128,
) -> Seq<char>;

/// Calls `std::fmt::format`, through the macro `format`, on the parts of a
/// swap table.
///
/// Believed without proof: the text is settled by the parts alone.
#[verifier::external_body]
fn render_swap_table(
    range_start: u32,
    range_end: u32,
    good: &Vec<u32>,
    good_stake: u128,
    bad: &Vec<u32>,
    bad_stake: u128,
) -> (text: String)
    ensures
        text@ == rendered_swap_table(range_start, range_end, good@, good_stake, bad@, bad_stake),
{
    format!(
        "LeaderSwapTable for CommitRange({}..{}), good_nodes:{:?} with stake:{}, bad_nodes:{:?} with stake:{}",
        range_start, range_end, good, good_stake, bad, bad_stake
    )
}

/// The indices of the nodes, in order.
pub open spec fn node_indices(nodes: Seq<Node>) -> Seq<u32> {
    Seq::new(nodes.len(), |i: int| nodes[i].0.0)
}

/// The stake of the first `n` nodes together.
pub open spec fn node_stake(nodes: Seq<Node>, n: int) -> int
    decreases n,
{
    if n <= 0 {
        0
    } else {
        node_stake(nodes, n - 1) + nodes[n - 1].2
    }
}

/// The keys of `nodes` below `bound`, in ascending order.
pub open spec fn keys_below(nodes: Map<u32, (String, Stake)>, bound: int) -> Seq<u32>
    decreases bound,
{
    if bound <= 0 {
        Seq::empty()
    } else if nodes.contains_key((bound - 1) as u32) {
        keys_below(nodes, bound - 1).push((bound - 1) as u32)
    } else {
        keys_below(nodes, bound - 1)
    }
}

/// All keys of `nodes`, in ascending order.
pub open spec fn all_keys(nodes: Map<u32, (String, Stake)>) -> Seq<u32> {
    keys_below(nodes, 0x1_0000_0000)
}

/// The stake of the nodes under the first `n` of `keys` together.
pub open spec fn stake_under(nodes: Map<u32, (String, Stake)>, keys: Seq<u32>, n: int) -> int
    decreases n,
{
    if n <= 0 {
        0
    } else {
        stake_under(nodes, keys, n - 1) + nodes[keys[n - 1]].1
    }
}

/// `keys` lists every key of `nodes` once, in ascending order.
pub open spec fn is_key_listing(nodes: Map<u32, (String, Stake)>, keys: Seq<u32>) -> bool {
    &&& forall|i: int, j: int| 0 <= i < j < keys.len() ==> #[trigger] keys[i] < #[trigger] keys[j]
    &&& forall|i: int| 0 <= i < keys.len() ==> nodes.contains_key(#[trigger] keys[i])
    &&& forall|k: u32| #[trigger] nodes.contains_key(k) ==> keys.contains(k)
}

/// The keys below a bound are in ascending order, lie below the bound, are
/// keys, and leave out no key below the bound.
proof fn lemma_keys_below(nodes: Map<u32, (String, Stake)>, bound: int)
    requires
        0 <= bound <= 0x1_0000_0000,
    ensures
        forall|i: int, j: int|
            0 <= i < j < keys_below(nodes, bound).len() ==> #[trigger] keys_below(nodes, bound)[i]
                < #[trigger] keys_below(nodes, bound)[j],
        forall|i: int|
            0 <= i < keys_below(nodes, bound).len() ==> (#[trigger] keys_below(nodes, bound)[i])
                < bound && nodes.contains_key(keys_below(nodes, bound)[i]),
        forall|k: u32| #[trigger]
            nodes.contains_key(k) && k < bound ==> keys_below(nodes, bound).contains(k),
    decreases bound,
{
    if bound > 0 {
        lemma_keys_below(nodes, bound - 1);
        let before = keys_below(nodes, bound - 1);
        let now = keys_below(nodes, bound);
        assert forall|k: u32| #[trigger] nodes.contains_key(k) && k < bound implies now.contains(
            k,
        ) by {
            if k < bound - 1 {
                assert(before.contains(k));
                let at = choose|at: int| 0 <= at < before.len() && before[at] == k;
                assert(now[at] == k);
            } else {
                assert(now[now.len() - 1] == k);
            }
        }
    }
}

/// Two listings of the keys agree on their first `i` keys.
proof fn lemma_key_listings_agree(
    nodes: Map<u32, (String, Stake)>,
    one: Seq<u32>,
    other: Seq<u32>,
    i: int,
)
    requires
        is_key_listing(nodes, one),
        is_key_listing(nodes, other),
        0 <= i <= one.len(),
    ensures
        i <= other.len(),
        forall|j: int| 0 <= j < i ==> one[j] == other[j],
    decreases i,
{
    if i > 0 {
        lemma_key_listings_agree(nodes, one, other, i - 1);
        let at = i - 1;
        // Where the key at `at` stands in the other listing.
        assert(other.contains(one[at]));
        let there = choose|there: int| 0 <= there < other.len() && other[there] == one[at];
        if there < at {
            assert(one[there] == other[there]);
            assert(one[there] < one[at]);
        }
        // Where the other listing's key at `at` stands in this one.
        assert(one.contains(other[at]));
        let here = choose|here: int| 0 <= here < one.len() && one[here] == other[at];
        if here < at {
            assert(one[here] == other[here]);
            assert(other[here] < other[at]);
        }
        if there > at && here > at {
            assert(other[at] < other[there]);
            assert(one[at] < one[here]);
        }
    }
}

/// There is one listing of the keys.
proof fn lemma_key_listing_is_all_keys(nodes: Map<u32, (String, Stake)>, keys: Seq<u32>)
    requires
        is_key_listing(nodes, keys),
    ensures
        keys == all_keys(nodes),
{
    let all = all_keys(nodes);
    lemma_keys_below(nodes, 0x1_0000_0000);
    assert(is_key_listing(nodes, all));
    lemma_key_listings_agree(nodes, keys, all, keys.len() as int);
    lemma_key_listings_agree(nodes, all, keys, all.len() as int);
    assert(keys =~= all);
}

/// The stake under the first `n` keys depends on those keys alone.
proof fn lemma_stake_under_prefix(
    nodes: Map<u32, (String, Stake)>,
    one: Seq<u32>,
    other: Seq<u32>,
    n: int,
)
    requires
        0 <= n <= one.len(),
        n <= other.len(),
        forall|i: int| 0 <= i < n ==> one[i] == other[i],
    ensures
        stake_under(nodes, one, n) == stake_under(nodes, other, n),
    decreases n,
{
    if n > 0 {
        lemma_stake_under_prefix(nodes, one, other, n - 1);
    }
}

/// Keys that the map hands out in increasing order ascend.
proof fn lemma_increasing_keys_ascend(keys: Seq<u32>)
    requires
        increasing_seq(keys),
    ensures
        forall|i: int, j: int| 0 <= i < j < keys.len() ==> #[trigger] keys[i] < #[trigger] keys[j],
{
    axiom_increasing_seq_meaning(keys);
    assert forall|i: int, j: int| 0 <= i < j < keys.len() implies #[trigger] keys[i]
        < #[trigger] keys[j] by {
        assert(keys[i].cmp_spec(&keys[j]) == core::cmp::Ordering::Less);
    }
}

impl LeaderSwapTable {
    /// The table in words, for logs: the range of commits that its scores
    /// cover, the good nodes in order with their stake together, and the bad
    /// nodes in order of index with their stake together.
    pub fn describe(&self) -> (text: String)
        ensures
            text@ == rendered_swap_table(
                self.reputation_scores.commit_range.start,
                self.reputation_scores.commit_range.end,
                node_indices(self.good_nodes@),
                node_stake(self.good_nodes@, self.good_nodes@.len() as int) as u128,
                all_keys(self.bad_nodes@),
                stake_under(
                    self.bad_nodes@,
                    all_keys(self.bad_nodes@),
                    all_keys(self.bad_nodes@).len() as int,
                ) as u128,
            ),
    {
        let mut good: Vec<u32> = Vec::new();
        let mut good_stake: u128 = 0;
        let mut i: usize = 0;
        while i < self.good_nodes.len()
            invariant
                i <= self.good_nodes@.len(),
                good@ == node_indices(self.good_nodes@).take(i as int),
                good_stake == node_stake(self.good_nodes@, i as int),
                good_stake <= i * 0xffff_ffff_ffff_ffff,
            decreases self.good_nodes@.len() - i,
        {
            assert(i * 0xffff_ffff_ffff_ffff + 0xffff_ffff_ffff_ffff
                <= 0xffff_ffff_ffff_ffff_ffff_ffff_ffff_ffff) by (nonlinear_arith)
                requires
                    i < 0xffff_ffff_ffff_ffff,
            ;
            assert((i + 1) * 0xffff_ffff_ffff_ffff == i * 0xffff_ffff_ffff_ffff
                + 0xffff_ffff_ffff_ffff) by (nonlinear_arith);
            good.push(self.good_nodes[i].0.0);
            good_stake = good_stake + self.good_nodes[i].2 as u128;
            assert(node_indices(self.good_nodes@).take(i as int).push(
                node_indices(self.good_nodes@)[i as int],
            ) =~= node_indices(self.good_nodes@).take(i + 1));
            i += 1;
        }
        assert(node_indices(self.good_nodes@).take(self.good_nodes@.len() as int)
            =~= node_indices(self.good_nodes@));

        let (bad, bad_stake) = self.bad_keys_and_stake();
        render_swap_table(
            self.reputation_scores.commit_range.start,
            self.reputation_scores.commit_range.end,
            &good,
            good_stake,
            &bad,
            bad_stake,
        )
    }

    /// The indices of the bad nodes in ascending order, and their stake together.
    fn bad_keys_and_stake(&self) -> (r: (Vec<u32>, u128))
        ensures
            r.0@ == all_keys(self.bad_nodes@),
            r.1 == stake_under(self.bad_nodes@, r.0@, r.0@.len() as int),
    {
        let mut bad: Vec<u32> = Vec::new();
        let mut bad_stake: u128 = 0;
        let ghost nodes = self.bad_nodes@;
        let ghost listing = spec_btree_map_iter(&self.bad_nodes).remaining();
        for entry in it: self.bad_nodes.iter()
            invariant
                nodes == self.bad_nodes@,
                it.seq() == listing,
                listing == spec_btree_map_iter(&self.bad_nodes).remaining(),
                increasing_seq(listing.map_values(|kv: (&u32, &(String, Stake))| *kv.0)),
                bad@.len() == it.index(),
                forall|i: int| 0 <= i < it.index() ==> bad@[i] == *(#[trigger] listing[i]).0,
                bad_stake == stake_under(nodes, bad@, bad@.len() as int),
                bad_stake <= bad@.len() * 0xffff_ffff_ffff_ffff,
        {
            let ghost before = bad@;
            let count = bad.len();
            assert(count * 0xffff_ffff_ffff_ffff + 0xffff_ffff_ffff_ffff
                <= 0xffff_ffff_ffff_ffff_ffff_ffff_ffff_ffff) by (nonlinear_arith)
                requires
                    count <= 0xffff_ffff_ffff_ffff,
            ;
            assert((count + 1) * 0xffff_ffff_ffff_ffff == count * 0xffff_ffff_ffff_ffff
                + 0xffff_ffff_ffff_ffff) by (nonlinear_arith);
            proof {
                assert(nodes.contains_key(*listing[count as int].0));
                assert(nodes[*listing[count as int].0] == *listing[count as int].1);
            }
            bad.push(*entry.0);
            bad_stake = bad_stake + (*entry.1).1 as u128;
            proof {
                lemma_stake_under_prefix(nodes, bad@, before, count as int);
            }
        }
        proof {
            let keys = listing.map_values(|kv: (&u32, &(String, Stake))| *kv.0);
            assert(bad@ =~= keys);
            lemma_increasing_keys_ascend(keys);
            assert forall|i: int| 0 <= i < bad@.len() implies nodes.contains_key(
                #[trigger] bad@[i],
            ) by {
                assert(nodes.contains_key(*listing[i].0));
            }
            assert forall|k: u32| #[trigger] nodes.contains_key(k) implies bad@.contains(k) by {
                assert(listing.contains((&k, &nodes[k])));
                let at = choose|at: int| 0 <= at < listing.len() && listing[at] == (&k, &nodes[k]);
                assert(bad@[at] == k);
            }
            lemma_key_listing_is_all_keys(nodes, bad@);
        }
        (bad, bad_stake)
    }
}

/// The stakes at the positions that `order` lists, in that order.
pub open spec fn stakes_in_order(stakes: Seq<Stake>, order: Seq<usize>) -> Seq<Stake> {
    Seq::new(order.len(), |i: int| stakes[order[i] as int])
}

/// Listing the first `m` stakes in the stable order of some keys does not
/// change their sum.
proof fn lemma_stable_order_keeps_total(
    keys: Seq<SortKey>,
    stakes: Seq<Stake>,
    m: nat,
)
    requires
        m <= keys.len(),
        keys.len() == stakes.len(),
        keys.len() <= usize::MAX,
    ensures
        stake_total(stakes_in_order(stakes, stable_order_of(keys, m)), m as int)
            == stake_total(stakes, m as int),
        stable_order_of(keys, m).len() == m,
    decreases m,
{
    lemma_stable_order_sorted(keys, m);
    if m > 0 {
        let before = stable_order_of(keys, (m - 1) as nat);
        let after = stable_order_of(keys, m);
        lemma_stable_order_keeps_total(keys, stakes, (m - 1) as nat);
        lemma_stable_order_grows(keys, m);
        let j = choose|j: int|
            0 <= j <= m - 1 && #[trigger] before.insert(j, (m - 1) as usize) == after;
        assert(stakes_in_order(stakes, after) =~= stakes_in_order(stakes, before).insert(
            j,
            stakes[m - 1],
        ));
        lemma_stake_total_insert(
            stakes_in_order(stakes, before),
            j,
            stakes[m - 1],
        );
    }
}

/// Where every member has a score, the stakes of the ranked authorities add
/// up to the total stake.
pub proof fn lemma_ranked_stakes_total(committee: &Committee, scores: Seq<u64>)
    requires
        committee.wf(),
        scores.len() == committee.spec_size(),
    ensures
        stake_total(ranked_stakes(committee, by_score_desc(scores)), scores.len() as int)
            == committee.total_stake,
{
    let keys = ranking_keys(scores);
    let order = stable_order(keys);
    let stakes = committee.stakes();
    let n = scores.len() as int;
    lemma_stable_order_keeps_total(keys, stakes, keys.len());
    lemma_stable_order_sorted(keys, keys.len());
    let ascending = stakes_in_order(stakes, order);
    assert(ranked_stakes(committee, by_score_desc(scores)) =~= ascending.reverse());
    lemma_stake_total_reverse(ascending, n);
}

/// Counting comes to an end within the list, with the stakes counted
/// within the budget.
proof fn lemma_count_within(stakes: Seq<Stake>, budget: int, from: int)
    requires
        0 <= from <= stakes.len(),
        stake_total(stakes, from) <= budget,
    ensures
        from <= count_within(stakes, budget, from) <= stakes.len(),
        stake_total(stakes, count_within(stakes, budget, from)) <= budget,
    decreases stakes.len() - from,
{
    if from < stakes.len() && stake_total(stakes, from + 1) <= budget {
        lemma_count_within(stakes, budget, from + 1);
    }
}

/// The keys of the mapping are the indices of the nodes.
proof fn lemma_nodes_by_index(nodes: Seq<Node>, key: u32)
    ensures
        nodes_by_index(nodes).contains_key(key) <==> exists|i: int|
            0 <= i < nodes.len() && (#[trigger] nodes[i]).0.0 == key,
    decreases nodes.len(),
{
    if nodes.len() > 0 {
        let head = nodes.drop_last();
        lemma_nodes_by_index(head, key);
        if nodes_by_index(nodes).contains_key(key) {
            if nodes.last().0.0 == key {
                assert(nodes[nodes.len() - 1].0.0 == key);
            } else {
                let i = choose|i: int| 0 <= i < head.len() && (#[trigger] head[i]).0.0 == key;
                assert(nodes[i].0.0 == key);
            }
        }
        if exists|i: int| 0 <= i < nodes.len() && (#[trigger] nodes[i]).0.0 == key {
            let i = choose|i: int| 0 <= i < nodes.len() && (#[trigger] nodes[i]).0.0 == key;
            if i < nodes.len() - 1 {
                assert(head[i].0.0 == key);
            }
        }
    }
}

/// Where every member has a score and the threshold is a third at most, no
/// authority is among the best and among the worst: each side holds at most
/// a third of the stake, so the two do not meet in the ranking.
pub proof fn lemma_good_and_bad_are_disjoint(
    committee: &Committee,
    scores: Seq<u64>,
    threshold: u64,
)
    requires
        committee.wf(),
        scores.len() == committee.spec_size(),
        threshold <= LeaderSwapTable::MAX_SWAP_STAKE_THRESHOLD,
    ensures
        forall|i: int, key: u32|
            0 <= i < first_nodes(committee, by_score_desc(scores), threshold).len()
                && #[trigger] nodes_by_index(
                first_nodes(committee, by_score_desc(scores).reverse(), threshold),
            ).contains_key(key) ==> (#[trigger] first_nodes(
                committee,
                by_score_desc(scores),
                threshold,
            )[i]).0.0 != key,
{
    let ranking = by_score_desc(scores);
    let back = ranking.reverse();
    let n = scores.len() as int;
    let budget = stake_budget(committee, threshold);
    let total = committee.total_stake as int;
    let best = ranked_stakes(committee, ranking);
    let worst = ranked_stakes(committee, back);
    lemma_by_score_desc_is_ranking(scores);
    assert(worst =~= best.reverse());
    assert(0 <= budget && 100 * budget <= 33 * total && 3 * budget < total) by (nonlinear_arith)
        requires
            0 <= threshold <= 33,
            0 < total,
            budget == (threshold * total) / 100,
    ;
    lemma_count_within(best, budget, 0);
    lemma_count_within(worst, budget, 0);
    let g = count_within(best, budget, 0);
    let b = count_within(worst, budget, 0);
    // The two sides together hold less than the total, so they leave a gap.
    assert(g + b <= n) by {
        if g + b > n {
            lemma_ranked_stakes_total(committee, scores);
            lemma_stake_total_reverse(best, b);
            lemma_stake_total_monotone(best, n - b, g);
        }
    }
    let good = first_nodes(committee, ranking, threshold);
    let bad = first_nodes(committee, back, threshold);
    assert forall|i: int, key: u32|
        0 <= i < good.len() && #[trigger] nodes_by_index(bad).contains_key(key) implies (
    #[trigger] good[i]).0.0 != key by {
        lemma_nodes_by_index(bad, key);
        let j = choose|j: int| 0 <= j < bad.len() && (#[trigger] bad[j]).0.0 == key;
        assert(bad[j] == node_of(committee, back[j].0));
        assert(back[j] == ranking[n - 1 - j]);
        assert(good[i] == node_of(committee, ranking[i].0));
        // The ranking names nobody at two places.
        let high = ranking[i];
        let low = ranking[n - 1 - j];
        assert(i < n - 1 - j);
        assert(high.1 > low.1 || (high.1 == low.1 && high.0.0 > low.0.0));
        assert(high.1 == scores[high.0.0 as int]);
        assert(low.1 == scores[low.0.0 as int]);
    }
}

impl LeaderSwapTable {
    /// No good node is a bad node.
    pub open spec fn spec_is_disjoint(&self) -> bool {
        forall|i: int|
            0 <= i < self.good_nodes@.len() ==> !self.bad_nodes@.contains_key(
                (#[trigger] self.good_nodes@[i]).0.0,
            )
    }
}

} // verus!
