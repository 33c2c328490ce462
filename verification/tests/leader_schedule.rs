use std::sync::Arc;

use consensus_core::commit::CommitRange;
use consensus_core::committee::{Authority, Committee, Context, LeaderElection};
use consensus_core::leader_schedule::{
    LeaderSchedule, LeaderSwapTable, CONSENSUS_COMMITS_PER_SCHEDULE,
};
use consensus_core::leader_scoring::ReputationScores;
use consensus_core::random::{make_election_seed, make_swap_seed};
use consensus_core::types::AuthorityIndex;

fn scores_for(range: std::ops::Range<u32>) -> ReputationScores {
    ReputationScores::new(
        CommitRange::new(range),
        (0..4).map(|i| i as u64).collect::<Vec<_>>(),
    )
}

fn stake_weighted_context(stakes: &[u64]) -> Arc<Context> {
    let authorities = stakes
        .iter()
        .enumerate()
        .map(|(i, stake)| Authority {
            stake: *stake,
            hostname: format!("host_{i}"),
        })
        .collect::<Vec<_>>();
    Arc::new(Context::new(Committee::new(0, authorities).unwrap()))
}

#[test]
fn test_elect_leader() {
    let context = Arc::new(Context::new_for_test(4));
    let leader_schedule = LeaderSchedule::new(context, LeaderSwapTable::default());

    assert_eq!(
        leader_schedule.elect_leader(0, 0),
        AuthorityIndex::new_for_test(0)
    );
    assert_eq!(
        leader_schedule.elect_leader(1, 0),
        AuthorityIndex::new_for_test(1)
    );
    assert_eq!(
        leader_schedule.elect_leader(5, 0),
        AuthorityIndex::new_for_test(1)
    );
    // ensure we elect different leaders for the same round for the multi-leader case
    assert_ne!(
        leader_schedule.elect_leader_stake_based(1, 1),
        leader_schedule.elect_leader_stake_based(1, 2)
    );
}

#[test]
fn test_elect_leader_stake_based() {
    let context = Arc::new(Context::new_for_test(4));
    let leader_schedule = LeaderSchedule::new(context, LeaderSwapTable::default());

    assert_eq!(
        leader_schedule.elect_leader_stake_based(0, 0),
        AuthorityIndex::new_for_test(1)
    );
    assert_eq!(
        leader_schedule.elect_leader_stake_based(1, 0),
        AuthorityIndex::new_for_test(1)
    );
    assert_eq!(
        leader_schedule.elect_leader_stake_based(5, 0),
        AuthorityIndex::new_for_test(3)
    );
    // ensure we elect different leaders for the same round for the multi-leader case
    assert_ne!(
        leader_schedule.elect_leader_stake_based(1, 1),
        leader_schedule.elect_leader_stake_based(1, 2)
    );
}

#[test]
fn test_leader_swap_table() {
    let context = Arc::new(Context::new_for_test(4));

    let swap_stake_threshold = 33;
    let reputation_scores = scores_for(0..10);
    let leader_swap_table =
        LeaderSwapTable::new(context, reputation_scores, swap_stake_threshold);

    assert_eq!(leader_swap_table.good_nodes.len(), 1);
    assert_eq!(
        leader_swap_table.good_nodes[0].0,
        AuthorityIndex::new_for_test(3)
    );
    assert_eq!(leader_swap_table.bad_nodes.len(), 1);
    assert!(leader_swap_table
        .bad_nodes
        .contains_key(&AuthorityIndex::new_for_test(0).0));
}

#[test]
fn test_leader_swap_table_swap() {
    let context = Arc::new(Context::new_for_test(4));

    let swap_stake_threshold = 33;
    let reputation_scores = scores_for(0..10);
    let leader_swap_table =
        LeaderSwapTable::new(context.clone(), reputation_scores, swap_stake_threshold);

    // Test swapping a bad leader
    let leader = AuthorityIndex::new_for_test(0);
    let leader_round = 1;
    let leader_offset = 0;
    assert!(leader_swap_table.can_swap(leader, leader_offset));
    let swapped_leader = leader_swap_table.swap(leader, leader_round, leader_offset);
    assert_eq!(swapped_leader, Some(AuthorityIndex::new_for_test(3)));

    // Test not swapping a good leader
    let leader = AuthorityIndex::new_for_test(1);
    let leader_round = 1;
    let leader_offset = 0;
    let swapped_leader = leader_swap_table.swap(leader, leader_round, leader_offset);
    assert_eq!(swapped_leader, None);
}

#[test]
fn test_leader_swap_table_retrieve_first_nodes() {
    let context = Arc::new(Context::new_for_test(4));

    let authorities = vec![
        (AuthorityIndex::new_for_test(0), 1),
        (AuthorityIndex::new_for_test(1), 2),
        (AuthorityIndex::new_for_test(2), 3),
        (AuthorityIndex::new_for_test(3), 4),
    ];

    let stake_threshold = 50;
    let filtered_authorities =
        LeaderSwapTable::retrieve_first_nodes(&context, authorities, stake_threshold);

    // Test setup includes 4 validators with even stake. Therefore with a
    // stake_threshold of 50% we should see 2 validators filtered.
    assert_eq!(filtered_authorities.len(), 2);
    let authority_0_idx = AuthorityIndex::new_for_test(0);
    let authority_0 = context.committee.authority(authority_0_idx);
    assert!(filtered_authorities.contains(&(
        authority_0_idx,
        authority_0.hostname.clone(),
        authority_0.stake
    )));
    let authority_1_idx = AuthorityIndex::new_for_test(1);
    let authority_1 = context.committee.authority(authority_1_idx);
    assert!(filtered_authorities.contains(&(
        authority_1_idx,
        authority_1.hostname.clone(),
        authority_1.stake
    )));
}

#[test]
#[should_panic(
    expected = "The swap_stake_threshold (34) should be in range [0 - 33], out of bounds parameter detected"
)]
fn test_leader_swap_table_swap_stake_threshold_out_of_bounds() {
    let context = Arc::new(Context::new_for_test(4));

    let swap_stake_threshold = 34;
    let reputation_scores = scores_for(0..10);
    LeaderSwapTable::try_new(context, reputation_scores, swap_stake_threshold).expect(
        "The swap_stake_threshold (34) should be in range [0 - 33], out of bounds parameter detected",
    );
}

#[test]
fn test_update_leader_swap_table() {
    let context = Arc::new(Context::new_for_test(4));

    let swap_stake_threshold = 33;
    let reputation_scores = scores_for(1..10);
    let leader_swap_table =
        LeaderSwapTable::new(context.clone(), reputation_scores, swap_stake_threshold);

    let mut leader_schedule = LeaderSchedule::new(context.clone(), LeaderSwapTable::default());

    // Update leader from brand new schedule to first real schedule
    assert!(leader_schedule.accepts(&leader_swap_table));
    leader_schedule.update_leader_swap_table(leader_swap_table.clone());
    assert_eq!(
        leader_schedule.leader_swap_table.reputation_scores.commit_range,
        CommitRange::new(1..10)
    );

    let reputation_scores = scores_for(10..19);
    let leader_swap_table =
        LeaderSwapTable::new(context.clone(), reputation_scores, swap_stake_threshold);

    // Update leader from old swap table to new valid swap table
    assert!(leader_schedule.accepts(&leader_swap_table));
    leader_schedule.update_leader_swap_table(leader_swap_table.clone());
    assert_eq!(
        leader_schedule.leader_swap_table.reputation_scores.commit_range,
        CommitRange::new(10..19)
    );
}

#[test]
#[should_panic(
    expected = "The new LeaderSwapTable has an invalid CommitRange. Old LeaderSwapTable CommitRange(10..19) vs new LeaderSwapTable CommitRange(19..23)"
)]
fn test_update_bad_leader_swap_table() {
    let context = Arc::new(Context::new_for_test(4));

    let swap_stake_threshold = 33;
    let reputation_scores = scores_for(1..10);
    let leader_swap_table =
        LeaderSwapTable::new(context.clone(), reputation_scores, swap_stake_threshold);

    let mut leader_schedule = LeaderSchedule::new(context.clone(), LeaderSwapTable::default());

    // Update leader from brand new schedule to first real schedule
    leader_schedule
        .try_update_leader_swap_table(leader_swap_table.clone())
        .expect("the first table is taken");

    let reputation_scores = scores_for(10..19);
    let leader_swap_table =
        LeaderSwapTable::new(context.clone(), reputation_scores, swap_stake_threshold);

    // Update leader from old swap table to new valid swap table
    leader_schedule
        .try_update_leader_swap_table(leader_swap_table.clone())
        .expect("the table that follows is taken");

    let reputation_scores = scores_for(19..23);
    let leader_swap_table =
        LeaderSwapTable::new(context.clone(), reputation_scores, swap_stake_threshold);

    // Update leader from old swap table to new invalid swap table
    if let Err(refused) = leader_schedule.try_update_leader_swap_table(leader_swap_table.clone()) {
        let old = leader_schedule.leader_swap_table.reputation_scores.commit_range;
        let new = refused.reputation_scores.commit_range;
        panic!(
            "The new LeaderSwapTable has an invalid CommitRange. Old LeaderSwapTable CommitRange({}..{}) vs new LeaderSwapTable CommitRange({}..{})",
            old.start(),
            old.end(),
            new.start(),
            new.end(),
        );
    }
}

#[test]
fn test_refused_swap_table_changes_nothing() {
    let context = Arc::new(Context::new_for_test(4));
    let mut schedule = LeaderSchedule::new(context.clone(), LeaderSwapTable::default());
    // after the start any range is taken, adjacent or not
    let first = LeaderSwapTable::new(context.clone(), scores_for(5..8), 33);
    assert!(schedule.try_update_leader_swap_table(first).is_ok());
    let leaders = (0..8)
        .map(|round| schedule.elect_leader(round, 0))
        .collect::<Vec<_>>();

    // a gap, an overlap, another length, and the same range again
    for range in [9..12, 7..10, 8..10, 8..12, 5..8] {
        let table = LeaderSwapTable::new(context.clone(), scores_for(range.clone()), 0);
        assert!(!schedule.accepts(&table));
        let refused = schedule.try_update_leader_swap_table(table).unwrap_err();
        assert_eq!(refused.reputation_scores.commit_range, CommitRange::new(range));
        assert_eq!(
            schedule.leader_swap_table.reputation_scores.commit_range,
            CommitRange::new(5..8)
        );
        assert_eq!(schedule.leader_swap_table.good_nodes.len(), 1);
        assert_eq!(schedule.leader_swap_table.bad_nodes.len(), 1);
        assert_eq!(
            leaders,
            (0..8)
                .map(|round| schedule.elect_leader(round, 0))
                .collect::<Vec<_>>()
        );
    }

    // the range that follows replaces the table as a whole
    let next = LeaderSwapTable::new(context.clone(), scores_for(8..11), 0);
    assert!(schedule.try_update_leader_swap_table(next).is_ok());
    assert_eq!(
        schedule.leader_swap_table.reputation_scores.commit_range,
        CommitRange::new(8..11)
    );
    assert!(schedule.leader_swap_table.good_nodes.is_empty());
    assert!(schedule.leader_swap_table.bad_nodes.is_empty());
    // round 4 is led by authority 0 again, which is no longer bad
    assert_eq!(schedule.elect_leader(4, 0), AuthorityIndex::new_for_test(0));
}

#[test]
fn test_try_new_refuses_what_cannot_be_built() {
    let context = Arc::new(Context::new_for_test(4));
    assert!(LeaderSwapTable::try_new(context.clone(), scores_for(0..10), 33).is_some());
    assert!(LeaderSwapTable::try_new(context.clone(), scores_for(0..10), 34).is_none());
    assert!(LeaderSwapTable::try_new(context.clone(), scores_for(0..10), u64::MAX).is_none());
    // a score for an authority that the committee does not have
    let five = ReputationScores::new(CommitRange::new(0..10), vec![1, 2, 3, 4, 5]);
    assert!(LeaderSwapTable::try_new(context.clone(), five, 33).is_none());
    // fewer scores than members
    let three = ReputationScores::new(CommitRange::new(0..10), vec![1, 2, 3]);
    let table = LeaderSwapTable::try_new(context, three, 33).unwrap();
    assert_eq!(table.good_nodes[0].0, AuthorityIndex::new_for_test(2));
    assert!(table.is_bad(AuthorityIndex::new_for_test(0)));
    // a committee whose total is not the sum of its stakes
    let mut off = Context::new_for_test(4);
    off.committee.total_stake = 5;
    assert!(LeaderSwapTable::try_new(Arc::new(off), scores_for(0..10), 33).is_none());
}

#[test]
fn test_commit_range_is_next_range() {
    let first = CommitRange::new(1..10);
    assert_eq!(first.size(), 9);
    assert!(first.is_next_range(&CommitRange::new(10..19)));
    // contiguous, but of another length
    assert!(!first.is_next_range(&CommitRange::new(10..14)));
    assert!(!first.is_next_range(&CommitRange::new(10..20)));
    // of the same length, but not the range that follows
    assert!(!first.is_next_range(&CommitRange::new(11..20)));
    assert!(!first.is_next_range(&CommitRange::new(9..18)));
    assert!(!first.is_next_range(&CommitRange::new(1..10)));
    // nothing follows nothing at the same place
    assert!(CommitRange::new(0..0).is_next_range(&CommitRange::new(0..0)));
    assert!(!CommitRange::new(0..0).is_next_range(&CommitRange::new(0..1)));
    assert!(CommitRange::new(0..0).is_initial());
    assert!(!first.is_initial());
    assert_eq!(CommitRange::default(), CommitRange::new(0..0));
    // a range that ends before it starts holds nothing
    assert_eq!(CommitRange::new(5..2).size(), 0);
}

#[test]
fn test_default_swap_table_is_empty_and_swaps_nobody() {
    let table = LeaderSwapTable::default();
    assert!(table.good_nodes.is_empty());
    assert!(table.bad_nodes.is_empty());
    assert!(table.reputation_scores.commit_range.is_initial());
    for leader in 0..4 {
        let leader = AuthorityIndex::new_for_test(leader);
        assert!(!table.is_bad(leader));
        assert!(table.can_swap(leader, 3));
        assert_eq!(table.swap(leader, 7, 3), None);
    }
}

#[test]
fn test_swap_table_with_zero_threshold_is_empty() {
    let context = Arc::new(Context::new_for_test(4));
    let table = LeaderSwapTable::new(context, scores_for(0..10), 0);
    assert!(table.good_nodes.is_empty());
    assert!(table.bad_nodes.is_empty());
}

#[test]
fn test_swap_table_ranks_equal_scores_by_index() {
    let context = Arc::new(Context::new_for_test(4));
    let scores = ReputationScores::new(CommitRange::new(0..10), vec![5, 5, 5, 5]);
    let ranking = scores.authorities_by_score_desc(&context);
    assert_eq!(
        ranking,
        vec![
            (AuthorityIndex::new_for_test(3), 5),
            (AuthorityIndex::new_for_test(2), 5),
            (AuthorityIndex::new_for_test(1), 5),
            (AuthorityIndex::new_for_test(0), 5),
        ]
    );
    let table = LeaderSwapTable::new(context, scores, 33);
    assert_eq!(table.good_nodes.len(), 1);
    assert_eq!(table.good_nodes[0].0, AuthorityIndex::new_for_test(3));
    assert!(table.is_bad(AuthorityIndex::new_for_test(0)));
}

#[test]
fn test_authorities_by_score_desc_orders_by_score() {
    let context = Arc::new(Context::new_for_test(4));
    let scores = ReputationScores::new(CommitRange::new(0..10), vec![7, 1, 9, 7]);
    assert_eq!(
        scores.authorities_by_score_desc(&context),
        vec![
            (AuthorityIndex::new_for_test(2), 9),
            (AuthorityIndex::new_for_test(3), 7),
            (AuthorityIndex::new_for_test(0), 7),
            (AuthorityIndex::new_for_test(1), 1),
        ]
    );
}

#[test]
fn test_retrieve_first_nodes_stops_before_the_stake_that_exceeds() {
    // stakes 10, 20, 30, 40: 50% of 100 is 50
    let context = stake_weighted_context(&[10, 20, 30, 40]);
    let order = vec![
        (AuthorityIndex::new_for_test(1), 0),
        (AuthorityIndex::new_for_test(2), 0),
        (AuthorityIndex::new_for_test(0), 0),
    ];
    // 20, then 20 + 30 = 50 which is not above 50, then 60 which is
    let nodes = LeaderSwapTable::retrieve_first_nodes(&context, order.clone(), 50);
    assert_eq!(
        nodes,
        vec![
            (AuthorityIndex::new_for_test(1), "host_1".to_string(), 20),
            (AuthorityIndex::new_for_test(2), "host_2".to_string(), 30),
        ]
    );
    // 49% of 100 is 49: the second authority no longer fits, and the third
    // is not looked at though it would
    let nodes = LeaderSwapTable::retrieve_first_nodes(&context, order, 49);
    assert_eq!(
        nodes,
        vec![(AuthorityIndex::new_for_test(1), "host_1".to_string(), 20)]
    );
    // the share is rounded down: 33% of 4 is 1
    let context = Arc::new(Context::new_for_test(4));
    let order = vec![
        (AuthorityIndex::new_for_test(0), 0),
        (AuthorityIndex::new_for_test(1), 0),
    ];
    assert_eq!(
        LeaderSwapTable::retrieve_first_nodes(&context, order, 33).len(),
        1
    );
}

#[test]
fn test_seeds_hold_round_and_offset_in_little_endian() {
    let seed = make_election_seed(0x0403_0201);
    let mut expected = [0u8; 32];
    expected[28..].copy_from_slice(&[1, 2, 3, 4]);
    assert_eq!(seed, expected);

    let seed = make_swap_seed(0x0403_0201, 0x0807_0605);
    let mut expected = [0u8; 32];
    expected[24..28].copy_from_slice(&[1, 2, 3, 4]);
    expected[28..].copy_from_slice(&[5, 6, 7, 8]);
    assert_eq!(seed, expected);
}

#[test]
fn test_elect_leader_is_repeatable() {
    let context = stake_weighted_context(&[1, 2, 3, 4, 5]);
    let one = LeaderSchedule::new(context.clone(), LeaderSwapTable::default());
    let other = LeaderSchedule::new(context, LeaderSwapTable::default());
    for round in 0..20 {
        for offset in 0..5 {
            let leader = one.elect_leader(round, offset);
            assert_eq!(leader, one.elect_leader(round, offset));
            assert_eq!(leader, other.elect_leader(round, offset));
            assert_eq!(Some(leader), one.try_elect_leader(round, offset));
        }
    }
}

#[test]
fn test_offsets_of_a_round_name_every_authority_once() {
    let context = stake_weighted_context(&[1, 2, 3, 4, 5]);
    let schedule = LeaderSchedule::new(context, LeaderSwapTable::default());
    for round in 0..20 {
        let mut leaders = (0..5)
            .map(|offset| schedule.elect_leader(round, offset).value())
            .collect::<Vec<_>>();
        leaders.sort();
        assert_eq!(leaders, vec![0, 1, 2, 3, 4]);
    }
    let context = Arc::new(Context::new_for_test(4));
    let schedule = LeaderSchedule::new(context, LeaderSwapTable::default());
    for round in [0, 1, 7, u32::MAX] {
        let mut leaders = (0..4)
            .map(|offset| schedule.elect_leader(round, offset).value())
            .collect::<Vec<_>>();
        leaders.sort();
        assert_eq!(leaders, vec![0, 1, 2, 3]);
    }
}

#[test]
fn test_round_robin_does_not_wrap_at_the_last_round() {
    let context = Arc::new(Context::new_for_test(4));
    let schedule = LeaderSchedule::new(context, LeaderSwapTable::default());
    // (2^32 - 1 + 3) mod 4 = 2
    assert_eq!(
        schedule.elect_leader(u32::MAX, 3),
        AuthorityIndex::new_for_test(2)
    );
}

#[test]
fn test_elect_leader_swaps_bad_leader() {
    let context = Arc::new(Context::new_for_test(4));
    let table = LeaderSwapTable::new(context.clone(), scores_for(0..10), 33);
    let schedule = LeaderSchedule::new(context, table);
    // round 4: authority 0 would lead, and is the one bad node
    assert_eq!(
        schedule.elect_leader(4, 0),
        AuthorityIndex::new_for_test(3)
    );
    // the others lead themselves
    assert_eq!(schedule.elect_leader(5, 0), AuthorityIndex::new_for_test(1));
    assert_eq!(schedule.elect_leader(6, 0), AuthorityIndex::new_for_test(2));
    assert_eq!(schedule.elect_leader(7, 0), AuthorityIndex::new_for_test(3));
}

#[test]
fn test_try_elect_leader_refuses_what_cannot_be_named() {
    let context = Arc::new(Context::new_for_test(4));
    let table = LeaderSwapTable::new(context.clone(), scores_for(0..10), 33);
    let schedule = LeaderSchedule::new(context.clone(), table);
    // the offset is not below the committee size
    assert_eq!(schedule.try_elect_leader(0, 4), None);
    // round 3, offset 1: authority 0 would lead, is bad, and the offset is not 0
    assert_eq!(schedule.try_elect_leader(3, 1), None);
    assert_eq!(
        schedule.try_elect_leader(4, 0),
        Some(AuthorityIndex::new_for_test(3))
    );
    assert_eq!(
        schedule.try_elect_leader(3, 0),
        Some(AuthorityIndex::new_for_test(3))
    );

    // a bad node and no good node
    let mut table = LeaderSwapTable::new(context.clone(), scores_for(0..10), 33);
    table.good_nodes.clear();
    let schedule = LeaderSchedule::new(context, table);
    assert_eq!(schedule.try_elect_leader(4, 0), None);
    assert_eq!(
        schedule.try_elect_leader(5, 0),
        Some(AuthorityIndex::new_for_test(1))
    );
}

#[test]
fn test_committee_new_refuses_what_is_not_acceptable() {
    assert!(Committee::new(0, vec![]).is_none());
    let zero = vec![Authority {
        stake: 0,
        hostname: "a".to_string(),
    }];
    assert!(Committee::new(0, zero).is_none());
    // stakes that add up to more than a stake can hold
    let too_much = vec![
        Authority {
            stake: u64::MAX,
            hostname: "a".to_string(),
        },
        Authority {
            stake: 1,
            hostname: "b".to_string(),
        },
    ];
    assert!(Committee::new(0, too_much).is_none());
    // one stake as large as a stake can be
    let all = vec![
        Authority {
            stake: u64::MAX,
            hostname: "a".to_string(),
        },
        Authority {
            stake: 0,
            hostname: "b".to_string(),
        },
    ];
    let committee = Committee::new(0, all).unwrap();
    assert_eq!(committee.total_stake(), u64::MAX);
    assert!(committee.is_well_formed());
    assert!(!committee.fits_weights());
    let fine = vec![
        Authority {
            stake: u32::MAX as u64,
            hostname: "a".to_string(),
        },
        Authority {
            stake: 5,
            hostname: "b".to_string(),
        },
    ];
    let committee = Committee::new(7, fine).unwrap();
    assert_eq!(committee.epoch(), 7);
    assert_eq!(committee.size(), 2);
    assert_eq!(committee.total_stake(), u32::MAX as u64 + 5);
    assert_eq!(committee.stake(AuthorityIndex::new_for_test(1)), 5);
    assert!(committee.is_well_formed());
    assert!(committee.fits_weights());
    assert!(committee.is_valid_index(AuthorityIndex::new_for_test(1)));
    assert!(!committee.is_valid_index(AuthorityIndex::new_for_test(2)));
    assert_eq!(
        committee.to_authority_index(1),
        Some(AuthorityIndex::new_for_test(1))
    );
    assert_eq!(committee.to_authority_index(2), None);
}

#[test]
fn test_contexts_choose_the_election() {
    let context = Context::new_for_test(4);
    assert_eq!(context.leader_election, LeaderElection::RoundRobin);
    assert_eq!(context.committee.size(), 4);
    assert_eq!(context.committee.total_stake(), 4);
    assert_eq!(context.committee.authorities[2].hostname, "test_host_2");
    let context = stake_weighted_context(&[1, 1]);
    assert_eq!(context.leader_election, LeaderElection::StakeWeighted);
    let schedule = LeaderSchedule::new(context, LeaderSwapTable::default());
    assert_eq!(
        schedule.num_commits_per_schedule,
        CONSENSUS_COMMITS_PER_SCHEDULE
    );
    assert_eq!(CONSENSUS_COMMITS_PER_SCHEDULE, 300);
}

fn table_of_ten() -> (Arc<Context>, LeaderSwapTable) {
    let context = Arc::new(Context::new_for_test(10));
    // scores 0, 3, 6, 9, 2, 5, 8, 1, 4, 7
    let scores = ReputationScores::new(
        CommitRange::new(0..10),
        (0..10).map(|i| i as u64 * 3 % 10).collect(),
    );
    let table = LeaderSwapTable::new(context.clone(), scores, 33);
    (context, table)
}

#[test]
fn test_swap_table_takes_a_third_from_each_end() {
    let (_, table) = table_of_ten();
    assert_eq!(
        table.good_nodes,
        vec![
            (AuthorityIndex::new_for_test(3), "test_host_3".to_string(), 1),
            (AuthorityIndex::new_for_test(6), "test_host_6".to_string(), 1),
            (AuthorityIndex::new_for_test(9), "test_host_9".to_string(), 1),
        ]
    );
    assert_eq!(
        table.bad_nodes.keys().copied().collect::<Vec<_>>(),
        vec![0, 4, 7]
    );
    assert_eq!(table.bad_nodes[&4], ("test_host_4".to_string(), 1));
    // nobody is on both sides
    for (index, _, _) in table.good_nodes.iter() {
        assert!(!table.is_bad(*index));
    }
}

#[test]
fn test_swap_draws_among_the_good_nodes_by_round() {
    let (_, table) = table_of_ten();
    let expected = [(4, 6), (5, 6), (6, 9), (7, 6), (8, 9), (9, 6), (10, 6), (11, 9)];
    for (round, substitute) in expected {
        // the bad leader does not matter, the slot does
        for bad in [0, 4, 7] {
            assert_eq!(
                table.swap(AuthorityIndex::new_for_test(bad), round, 0),
                Some(AuthorityIndex::new_for_test(substitute))
            );
        }
    }
    let mut drawn = (0..100)
        .map(|round| {
            table
                .swap(AuthorityIndex::new_for_test(0), round, 0)
                .unwrap()
                .value()
        })
        .collect::<Vec<_>>();
    drawn.sort();
    drawn.dedup();
    assert_eq!(drawn, vec![3, 6, 9]);
    // a bad leader cannot be replaced at another offset
    assert!(!table.can_swap(AuthorityIndex::new_for_test(0), 1));
    assert!(table.can_swap(AuthorityIndex::new_for_test(1), 1));
}

#[test]
fn test_describe_lists_both_sides_with_their_stake() {
    let (_, table) = table_of_ten();
    assert_eq!(
        table.describe(),
        "LeaderSwapTable for CommitRange(0..10), good_nodes:[3, 6, 9] with stake:3, bad_nodes:[0, 4, 7] with stake:3"
    );
    assert_eq!(
        LeaderSwapTable::default().describe(),
        "LeaderSwapTable for CommitRange(0..0), good_nodes:[] with stake:0, bad_nodes:[] with stake:0"
    );
    // every bad node is listed, whatever its index, in order of index
    let mut table = LeaderSwapTable::default();
    table.bad_nodes.insert(u32::MAX, ("far".to_string(), u64::MAX));
    table.bad_nodes.insert(7, ("near".to_string(), u64::MAX));
    table.bad_nodes.insert(70, ("between".to_string(), 2));
    assert_eq!(
        table.describe(),
        "LeaderSwapTable for CommitRange(0..0), good_nodes:[] with stake:0, bad_nodes:[7, 70, 4294967295] with stake:36893488147419103232"
    );
}

#[test]
fn test_stake_weighted_shuffle_follows_the_stakes() {
    let context = stake_weighted_context(&[5, 1, 1, 1, 1, 1]);
    let schedule = LeaderSchedule::new(context, LeaderSwapTable::default());
    let leaders = |round: u32| {
        (0..6)
            .map(|offset| schedule.elect_leader(round, offset).value())
            .collect::<Vec<_>>()
    };
    assert_eq!(leaders(0), vec![1, 0, 4, 5, 3, 2]);
    assert_eq!(leaders(1), vec![0, 1, 5, 2, 3, 4]);
    assert_eq!(leaders(2), vec![2, 5, 0, 3, 1, 4]);
    // half of the stake leads half of the rounds
    let led = (0..1000)
        .filter(|round| schedule.elect_leader(*round, 0).value() == 0)
        .count();
    assert_eq!(led, 500);
}

#[test]
fn test_large_stakes_take_part_in_all_but_the_shuffle() {
    // stakes above what the shuffle takes as a weight
    let context = stake_weighted_context(&[1 << 40, 1 << 40, 1 << 40, 1 << 40]);
    assert!(context.committee.is_well_formed());
    assert!(!context.committee.fits_weights());
    let table = LeaderSwapTable::new(context.clone(), scores_for(0..10), 33);
    assert_eq!(
        table.good_nodes,
        vec![(AuthorityIndex::new_for_test(3), "host_3".to_string(), 1 << 40)]
    );
    assert!(table.is_bad(AuthorityIndex::new_for_test(0)));
    assert_eq!(
        table.describe(),
        "LeaderSwapTable for CommitRange(0..10), good_nodes:[3] with stake:1099511627776, bad_nodes:[0] with stake:1099511627776"
    );
    // the leaders of such a committee cannot be shuffled by stake
    let schedule = LeaderSchedule::new(context, table);
    assert_eq!(schedule.try_elect_leader(0, 0), None);

    // the largest weight can
    let context = stake_weighted_context(&[u32::MAX as u64, 1]);
    assert!(context.committee.fits_weights());
    let schedule = LeaderSchedule::new(context, LeaderSwapTable::default());
    assert!(schedule.try_elect_leader(0, 0).is_some());
    assert_ne!(
        schedule.elect_leader_stake_based(0, 0),
        schedule.elect_leader_stake_based(0, 1)
    );
}
