//! Reputation scores of the authorities over a range of commits.

use crate::commit::CommitRange;
use crate::committee::Context;
use crate::ordering::{
    is_ordered, lemma_stable_order_sorted, lists_all, sort_positions, stable_order, stands_before,
    SortKey,
};
use crate::types::AuthorityIndex;
use vstd::prelude::*;

verus! {

/// One score per authority, by position, and the commits they were computed over.
#[derive(Clone, Debug)]
pub struct ReputationScores {
    pub scores_per_authority: Vec<u64>,
    pub commit_range: CommitRange,
}

impl Default for ReputationScores {
    fn default() -> (r: Self)
        ensures
            r.scores_per_authority@.len() == 0,
            r.commit_range.spec_is_initial(),
    {
        ReputationScores {
            scores_per_authority: Vec::new(),
            commit_range: CommitRange { start: 0, end: 0 },
        }
    }
}

/// The keys by which authorities are ranked: the score, then the position.
pub open spec fn ranking_keys(scores: Seq<u64>) -> Seq<SortKey> {
    Seq::new(scores.len(), |i: int| (scores[i], i as u64))
}

/// The authorities with their scores, best score first; equal scores are
/// listed from the highest position down.
pub open spec fn by_score_desc(scores: Seq<u64>) -> Seq<(AuthorityIndex, u64)> {
    let order = stable_order(ranking_keys(scores));
    let n = scores.len() as int;
    Seq::new(
        scores.len(),
        |i: int| (AuthorityIndex(order[n - 1 - i] as u32), scores[order[n - 1 - i] as int]),
    )
}

/// `ranking` names each of `scores.len()` authorities once, with its score,
/// each entry ahead of every entry with a lower score, or with the same score
/// and a lower position.
pub open spec fn is_score_ranking(scores: Seq<u64>, ranking: Seq<(AuthorityIndex, u64)>) -> bool {
    &&& ranking.len() == scores.len()
    &&& forall|i: int|
        0 <= i < ranking.len() ==> (#[trigger] ranking[i]).0.0 < scores.len() && ranking[i].1
            == scores[ranking[i].0.0 as int]
    &&& forall|i: int, j: int|
        0 <= i < j < ranking.len() ==> {
            let a = #[trigger] ranking[i];
            let b = #[trigger] ranking[j];
            a.1 > b.1 || (a.1 == b.1 && a.0.0 > b.0.0)
        }
    &&& forall|p: u32| p < scores.len() ==> #[trigger] is_ranked(ranking, AuthorityIndex(p))
}

/// `who` stands somewhere in `ranking`.
pub open spec fn is_ranked(ranking: Seq<(AuthorityIndex, u64)>, who: AuthorityIndex) -> bool {
    exists|i: int| 0 <= i < ranking.len() && (#[trigger] ranking[i]).0 == who
}

impl ReputationScores {
    pub fn new(commit_range: CommitRange, scores_per_authority: Vec<u64>) -> (r: Self)
        ensures
            r.commit_range == commit_range,
            r.scores_per_authority == scores_per_authority,
    {
        ReputationScores { scores_per_authority, commit_range }
    }

    /// The authorities with their scores, best score first.
    pub fn authorities_by_score_desc(&self, context: &Context) -> (ranking: Vec<
        (AuthorityIndex, u64),
    >)
        requires
            context.wf(),
            self.scores_per_authority@.len() <= context.committee.spec_size(),
        ensures
            ranking@ == by_score_desc(self.scores_per_authority@),
            is_score_ranking(self.scores_per_authority@, ranking@),
    {
        let n = self.scores_per_authority.len();
        let ghost scores = self.scores_per_authority@;
        let mut keys: Vec<SortKey> = Vec::new();
        let mut i: usize = 0;
        while i < n
            invariant
                n == self.scores_per_authority.len(),
                scores == self.scores_per_authority@,
                i <= n,
                keys@.len() == i,
                forall|k: int| 0 <= k < i ==> keys@[k] == (scores[k], k as u64),
            decreases n - i,
        {
            keys.push((self.scores_per_authority[i], i as u64));
            i += 1;
        }
        assert(keys@ =~= ranking_keys(scores));
        let order = sort_positions(&keys);
        let mut ranking: Vec<(AuthorityIndex, u64)> = Vec::new();
        let mut taken: usize = 0;
        while taken < n
            invariant
                n == self.scores_per_authority.len(),
                n <= u32::MAX,
                scores == self.scores_per_authority@,
                order@.len() == n,
                forall|k: int| 0 <= k < n ==> (#[trigger] order@[k]) < n,
                taken <= n,
                ranking@.len() == taken,
                forall|k: int|
                    0 <= k < taken ==> ranking@[k] == (
                        AuthorityIndex(order@[n - 1 - k] as u32),
                        scores[order@[n - 1 - k] as int],
                    ),
            decreases n - taken,
        {
            let position = order[n - 1 - taken];
            ranking.push((AuthorityIndex(position as u32), self.scores_per_authority[position]));
            taken += 1;
        }
        assert(ranking@ =~= by_score_desc(scores));
        proof {
            lemma_ranking_from_order(scores, order@, ranking@);
        }
        ranking
    }
}

/// Reading a stable ascending order of the ranking keys from the back gives a score ranking.
proof fn lemma_ranking_from_order(
    scores: Seq<u64>,
    order: Seq<usize>,
    ranking: Seq<(AuthorityIndex, u64)>,
)
    requires
        scores.len() <= u32::MAX,
        is_ordered(ranking_keys(scores), order),
        lists_all(order, scores.len() as int),
        ranking.len() == scores.len(),
        forall|k: int|
            0 <= k < ranking.len() ==> ranking[k] == (
                AuthorityIndex(order[scores.len() - 1 - k] as u32),
                scores[order[scores.len() - 1 - k] as int],
            ),
    ensures
        is_score_ranking(scores, ranking),
{
    let n = scores.len() as int;
    let keys = ranking_keys(scores);
    assert forall|i: int, j: int| 0 <= i < j < ranking.len() implies ({
        let a = #[trigger] ranking[i];
        let b = #[trigger] ranking[j];
        a.1 > b.1 || (a.1 == b.1 && a.0.0 > b.0.0)
    }) by {
        let hi = n - 1 - i;
        let lo = n - 1 - j;
        assert(stands_before(keys, order[lo] as int, order[hi] as int));
    }
    assert forall|p: u32| p < scores.len() implies #[trigger] is_ranked(
        ranking,
        AuthorityIndex(p),
    ) by {
        assert(order.contains(p as usize));
        let k = choose|k: int| 0 <= k < order.len() && order[k] == p as usize;
        assert(ranking[n - 1 - k].0 == AuthorityIndex(p));
    }
}

/// The ranking by score is a score ranking.
pub proof fn lemma_by_score_desc_is_ranking(scores: Seq<u64>)
    requires
        scores.len() <= u32::MAX,
    ensures
        is_score_ranking(scores, by_score_desc(scores)),
{
    let keys = ranking_keys(scores);
    lemma_stable_order_sorted(keys, keys.len());
    lemma_ranking_from_order(scores, stable_order(keys), by_score_desc(scores));
}

} // verus!
