use std::sync::Arc;

use consensus_core::block::{BlockDigest, BlockRef, VerifiedBlock};
use consensus_core::commit::{Commit, CommitDigest, CommittedSubDag, TrustedCommit};
use consensus_core::committee::Context;
use consensus_core::dag_state::DagState;
use consensus_core::leader_schedule::{LeaderSchedule, LeaderSwapTable};
use consensus_core::linearizer::Linearizer;
use consensus_core::types::{AuthorityIndex, CommitIndex, Round};

const DEFAULT_WAVE_LENGTH: Round = 3;

/// A digest that tells blocks of different rounds and authors apart.
fn digest_of(round: Round, author: u32) -> BlockDigest {
    let mut digest = [0u8; 32];
    digest[..4].copy_from_slice(&round.to_le_bytes());
    digest[4..8].copy_from_slice(&author.to_le_bytes());
    digest[8] = 0xb1;
    BlockDigest(digest)
}

/// A fully connected DAG: every block names every block of the round before.
struct DagBuilder {
    context: Arc<Context>,
    leader_schedule: LeaderSchedule,
    layers: Vec<Vec<VerifiedBlock>>,
}

impl DagBuilder {
    fn new(context: Arc<Context>) -> Self {
        let leader_schedule = LeaderSchedule::new(context.clone(), LeaderSwapTable::default());
        let genesis = (0..context.committee.size() as u32)
            .map(|author| {
                VerifiedBlock::new(
                    0,
                    AuthorityIndex::new_for_test(author),
                    0,
                    vec![],
                    digest_of(0, author),
                )
            })
            .collect();
        Self {
            context,
            leader_schedule,
            layers: vec![genesis],
        }
    }

    fn build_layers(&mut self, last_round: Round) {
        for round in 1..=last_round {
            let ancestors = self.layers[round as usize - 1]
                .iter()
                .map(|block| block.reference())
                .collect::<Vec<_>>();
            let layer = (0..self.context.committee.size() as u32)
                .map(|author| {
                    VerifiedBlock::new(
                        round,
                        AuthorityIndex::new_for_test(author),
                        round as u64 * 1000,
                        ancestors.clone(),
                        digest_of(round, author),
                    )
                })
                .collect();
            self.layers.push(layer);
        }
    }

    fn blocks(&self, rounds: std::ops::RangeInclusive<Round>) -> Vec<VerifiedBlock> {
        rounds
            .flat_map(|round| self.layers[round as usize].iter().cloned())
            .collect()
    }

    fn leader_block(&self, round: Round) -> Option<VerifiedBlock> {
        let leader = self.leader_schedule.elect_leader(round, 0);
        self.layers[round as usize]
            .iter()
            .find(|block| block.author() == leader)
            .cloned()
    }

    fn leader_blocks(&self, rounds: std::ops::RangeInclusive<Round>) -> Vec<Option<VerifiedBlock>> {
        rounds.map(|round| self.leader_block(round)).collect()
    }
}

#[test]
fn test_handle_commit() {
    let num_authorities = 4;
    let context = Arc::new(Context::new_for_test(num_authorities));
    let dag_state = DagState::new(context.clone());
    let mut linearizer = Linearizer::new(dag_state);

    // Populate fully connected test blocks for round 0 ~ 10, authorities 0 ~ 3.
    let num_rounds: u32 = 10;
    let mut dag_builder = DagBuilder::new(context.clone());
    dag_builder.build_layers(num_rounds);
    linearizer
        .dag_state
        .accept_blocks(dag_builder.blocks(1..=num_rounds));

    let leaders = dag_builder
        .leader_blocks(1..=num_rounds)
        .into_iter()
        .map(Option::unwrap)
        .collect::<Vec<_>>();

    assert!(linearizer.can_commit(&leaders));
    let commits = linearizer.handle_commit(leaders.clone());
    assert_eq!(commits.len(), leaders.len());
    for (idx, subdag) in commits.into_iter().enumerate() {
        println!("{subdag:?}");
        assert_eq!(subdag.leader, leaders[idx].reference());
        assert_eq!(subdag.timestamp_ms, leaders[idx].timestamp_ms());
        if idx == 0 {
            // First subdag includes the leader block only
            assert_eq!(subdag.blocks.len(), 1);
        } else {
            // Every subdag after will be missing the leader block from the previous
            // committed subdag
            assert_eq!(subdag.blocks.len(), num_authorities);
        }
        for block in subdag.blocks.iter() {
            assert!(block.round() <= leaders[idx].round());
        }
        assert_eq!(subdag.commit_index, idx as CommitIndex + 1);
    }
}

#[test]
fn test_handle_already_committed() {
    let num_authorities = 4;
    let context = Arc::new(Context::new_for_test(num_authorities));
    let dag_state = DagState::new(context.clone());
    let leader_schedule = LeaderSchedule::new(context.clone(), LeaderSwapTable::default());
    let mut linearizer = Linearizer::new(dag_state);
    let wave_length = DEFAULT_WAVE_LENGTH;

    let leader_round_wave_1 = 3;
    let leader_round_wave_2 = leader_round_wave_1 + wave_length;

    // Build a Dag from round 1..=6
    let mut dag_builder = DagBuilder::new(context.clone());
    dag_builder.build_layers(leader_round_wave_2);

    // Now retrieve all the blocks up to round leader_round_wave_1 - 1
    // And then only the leader of round leader_round_wave_1
    // Also store those to DagState
    let mut blocks = dag_builder.blocks(0..=leader_round_wave_1 - 1);
    blocks.push(
        dag_builder
            .leader_block(leader_round_wave_1)
            .expect("Leader block should have been found"),
    );
    linearizer.dag_state.accept_blocks(blocks.clone());

    let first_leader = dag_builder
        .leader_block(leader_round_wave_1)
        .expect("Wave 1 leader round block should exist");
    let mut last_commit_index = 1;
    let first_commit_data = TrustedCommit::new_for_test(
        last_commit_index,
        CommitDigest::min(),
        0,
        first_leader.reference(),
        blocks.into_iter().map(|block| block.reference()).collect(),
    );
    linearizer.dag_state.add_commit(first_commit_data);

    // Now take all the blocks from round `leader_round_wave_1` up to round `leader_round_wave_2-1`
    let mut blocks = dag_builder.blocks(leader_round_wave_1..=leader_round_wave_2 - 1);
    // Filter out leader block of round `leader_round_wave_1`
    blocks.retain(|block| {
        !(block.round() == leader_round_wave_1
            && block.author() == leader_schedule.elect_leader(leader_round_wave_1, 0))
    });
    // Add the leader block of round `leader_round_wave_2`
    blocks.push(
        dag_builder
            .leader_block(leader_round_wave_2)
            .expect("Leader block should have been found"),
    );
    // Write them in dag state
    linearizer.dag_state.accept_blocks(blocks.clone());

    let mut blocks: Vec<_> = blocks.into_iter().map(|block| block.reference()).collect();

    // Now get the latest leader which is the leader round of wave 2
    let leader = dag_builder
        .leader_block(leader_round_wave_2)
        .expect("Leader block should exist");

    last_commit_index += 1;
    let expected_second_commit = TrustedCommit::new_for_test(
        last_commit_index,
        CommitDigest::min(),
        0,
        leader.reference(),
        blocks.clone(),
    );

    assert!(linearizer.can_commit(&vec![leader.clone()]));
    let commit = linearizer.handle_commit(vec![leader.clone()]);
    assert_eq!(commit.len(), 1);

    let subdag = &commit[0];
    println!("{subdag:?}");
    assert_eq!(subdag.leader, leader.reference());
    assert_eq!(subdag.timestamp_ms, leader.timestamp_ms());
    assert_eq!(subdag.commit_index, expected_second_commit.index());

    // Using the same sorting as used in CommittedSubDag::sort
    blocks.sort_by(|a, b| a.round.cmp(&b.round).then_with(|| a.author.cmp(&b.author)));
    assert_eq!(
        subdag
            .blocks
            .clone()
            .into_iter()
            .map(|b| b.reference())
            .collect::<Vec<_>>(),
        blocks
    );
    for block in subdag.blocks.iter() {
        assert!(block.round() <= expected_second_commit.leader().round);
    }
}

#[test]
fn test_handle_commit_without_leaders_changes_nothing() {
    let context = Arc::new(Context::new_for_test(4));
    let mut dag_builder = DagBuilder::new(context.clone());
    dag_builder.build_layers(2);
    let mut linearizer = Linearizer::new(DagState::new(context));
    linearizer.dag_state.accept_blocks(dag_builder.blocks(1..=2));

    assert!(linearizer.can_commit(&vec![]));
    let commits = linearizer.handle_commit(vec![]);
    assert!(commits.is_empty());
    assert_eq!(linearizer.dag_state.last_commit_index(), 0);
    assert_eq!(linearizer.dag_state.last_commit_digest(), CommitDigest::min());
    assert_eq!(linearizer.dag_state.last_commit_timestamp_ms(), 0);
    assert_eq!(linearizer.dag_state.last_committed_rounds(), vec![0, 0, 0, 0]);
    // nothing was flushed
    assert_eq!(linearizer.dag_state.flushed_blocks, 0);
    assert!(linearizer.dag_state.persisted_commits.is_empty());
    assert!(linearizer.dag_state.commits_to_write.is_empty());
}

#[test]
fn test_handle_commit_commits_no_block_twice_and_sorts() {
    let context = Arc::new(Context::new_for_test(4));
    let mut dag_builder = DagBuilder::new(context.clone());
    dag_builder.build_layers(10);
    let mut linearizer = Linearizer::new(DagState::new(context));
    linearizer.dag_state.accept_blocks(dag_builder.blocks(1..=10));

    // leaders of every third round, in two calls
    let first = vec![
        dag_builder.leader_block(3).unwrap(),
        dag_builder.leader_block(6).unwrap(),
    ];
    let second = vec![dag_builder.leader_block(9).unwrap()];
    let mut sub_dags = linearizer.handle_commit(first);
    sub_dags.extend(linearizer.handle_commit(second));
    assert_eq!(sub_dags.len(), 3);
    // rounds 1, 2 and the leader; then the rest of 3, rounds 4, 5 and the leader; and so on
    assert_eq!(sub_dags[0].blocks.len(), 9);
    assert_eq!(sub_dags[1].blocks.len(), 12);
    assert_eq!(sub_dags[2].blocks.len(), 12);

    let mut seen: Vec<BlockRef> = vec![];
    let mut last_time = 0;
    for (i, sub_dag) in sub_dags.iter().enumerate() {
        assert_eq!(sub_dag.commit_index, i as CommitIndex + 1);
        assert!(sub_dag.timestamp_ms >= last_time);
        last_time = sub_dag.timestamp_ms;
        let keys = sub_dag
            .blocks
            .iter()
            .map(|block| (block.round(), block.author()))
            .collect::<Vec<_>>();
        let mut sorted = keys.clone();
        sorted.sort();
        assert_eq!(keys, sorted);
        for block in sub_dag.blocks.iter() {
            assert!(!seen.contains(&block.reference()));
            seen.push(block.reference());
        }
    }

    // the commits are chained, written, and read back from their bytes
    let written = &linearizer.dag_state.persisted_commits;
    assert_eq!(written.len(), 3);
    assert!(linearizer.dag_state.commits_to_write.is_empty());
    assert_eq!(linearizer.dag_state.flushed_blocks, 40);
    let mut previous = CommitDigest::min();
    for (commit, sub_dag) in written.iter().zip(sub_dags.iter()) {
        assert_eq!(commit.index(), sub_dag.commit_index);
        assert_eq!(commit.previous_digest(), previous);
        assert_eq!(commit.timestamp_ms(), sub_dag.timestamp_ms);
        assert_eq!(commit.leader(), sub_dag.leader);
        assert_eq!(
            commit.blocks(),
            &sub_dag
                .blocks
                .iter()
                .map(|block| block.reference())
                .collect::<Vec<_>>()
        );
        assert_eq!(commit.serialized(), &commit.commit.serialize());
        assert_ne!(commit.digest(), previous);
        previous = commit.digest();
    }
    assert_eq!(linearizer.dag_state.last_commit_index(), 3);
    assert_eq!(linearizer.dag_state.last_commit_digest(), previous);
    assert_eq!(linearizer.dag_state.last_commit_timestamp_ms(), 9000);
    assert_eq!(
        linearizer.dag_state.last_committed_rounds(),
        vec![8, 9, 8, 8]
    );
}

#[test]
fn test_sub_dag_time_never_goes_back() {
    let context = Arc::new(Context::new_for_test(4));
    let mut linearizer = Linearizer::new(DagState::new(context));
    let late = VerifiedBlock::new(
        1,
        AuthorityIndex::new_for_test(1),
        5000,
        vec![],
        digest_of(1, 1),
    );
    let early = VerifiedBlock::new(
        2,
        AuthorityIndex::new_for_test(2),
        4000,
        vec![late.reference()],
        digest_of(2, 2),
    );
    linearizer
        .dag_state
        .accept_blocks(vec![late.clone(), early.clone()]);
    let sub_dags = linearizer.handle_commit(vec![late, early]);
    assert_eq!(sub_dags[0].timestamp_ms, 5000);
    // the leader's own time lies before the time of the last commit
    assert_eq!(sub_dags[1].timestamp_ms, 5000);
    assert_eq!(sub_dags[1].blocks.len(), 1);
}

#[test]
fn test_collect_sub_dag_takes_each_block_once() {
    let context = Arc::new(Context::new_for_test(4));
    let mut dag_builder = DagBuilder::new(context.clone());
    dag_builder.build_layers(3);
    let mut dag_state = DagState::new(context);
    dag_state.accept_blocks(dag_builder.blocks(1..=3));
    let linearizer = Linearizer::new(dag_state);

    let leader = dag_builder.leader_block(3).unwrap();
    let sub_dag = linearizer.collect_sub_dag(leader.clone(), 6, 77, vec![0, 1, 0, 3]);
    assert_eq!(sub_dag.leader, leader.reference());
    assert_eq!(sub_dag.commit_index, 7);
    assert_eq!(sub_dag.timestamp_ms, 3000);
    // the leader comes first
    assert_eq!(sub_dag.blocks[0].reference(), leader.reference());
    // the leader, round 2 of authors 0, 1 and 2, round 1 of authors 0 and 2
    let mut refs = sub_dag
        .blocks
        .iter()
        .map(|block| (block.round(), block.author().value()))
        .collect::<Vec<_>>();
    refs.sort();
    assert_eq!(refs, vec![(1, 0), (1, 2), (2, 0), (2, 1), (2, 2), (3, 3)]);

    // a later time of the last commit wins
    let sub_dag = linearizer.collect_sub_dag(leader, 0, 3001, vec![3, 3, 3, 3]);
    assert_eq!(sub_dag.timestamp_ms, 3001);
    assert_eq!(sub_dag.commit_index, 1);
    assert_eq!(sub_dag.blocks.len(), 1);
}

#[test]
fn test_can_commit_sees_a_missing_ancestor() {
    let context = Arc::new(Context::new_for_test(4));
    let mut dag_builder = DagBuilder::new(context.clone());
    dag_builder.build_layers(2);
    let mut linearizer = Linearizer::new(DagState::new(context));
    // round 1 is accepted but for the block of authority 2
    let mut blocks = dag_builder.blocks(1..=1);
    blocks.retain(|block| block.author() != AuthorityIndex::new_for_test(2));
    linearizer.dag_state.accept_blocks(blocks);
    assert!(linearizer.dag_state.is_well_formed());
    assert!(linearizer.dag_state.is_closed());

    let leader = dag_builder.leader_block(2).unwrap();
    assert!(!linearizer.dag_state.holds_pending_ancestors(&leader));
    assert!(!linearizer.can_commit(&vec![leader.clone()]));
    // an accepted block with a missing ancestor leaves the store open
    linearizer.dag_state.accept_block(leader);
    assert!(!linearizer.dag_state.is_closed());
    assert!(!linearizer.can_commit(&vec![]));

    // a leader of an author that the committee does not have
    let mut linearizer = Linearizer::new(DagState::new(Arc::new(Context::new_for_test(4))));
    let stranger = VerifiedBlock::new(
        1,
        AuthorityIndex::new_for_test(4),
        0,
        vec![],
        digest_of(1, 4),
    );
    assert!(!linearizer.dag_state.is_within(&stranger));
    assert!(!linearizer.can_commit(&vec![stranger]));
    assert!(linearizer.handle_commit(vec![]).is_empty());
}

#[test]
fn test_dag_state_accepts_each_block_once() {
    let context = Arc::new(Context::new_for_test(4));
    let mut dag_builder = DagBuilder::new(context.clone());
    dag_builder.build_layers(1);
    let mut dag_state = DagState::new(context);
    let blocks = dag_builder.blocks(1..=1);
    dag_state.accept_blocks(blocks.clone());
    dag_state.accept_blocks(blocks.clone());
    dag_state.accept_block(blocks[0].clone());
    assert_eq!(dag_state.blocks.len(), 4);
    assert!(dag_state.contains_block(&blocks[3].reference()));

    let missing = BlockRef::new(9, AuthorityIndex::new_for_test(0), digest_of(9, 0));
    assert!(!dag_state.contains_block(&missing));
    // same round and author, another digest
    let twin = BlockRef::new(1, AuthorityIndex::new_for_test(0), digest_of(1, 9));
    assert!(!dag_state.contains_block(&twin));
    let found = dag_state.get_blocks(&[blocks[2].reference(), missing, twin]);
    assert_eq!(found.len(), 3);
    assert_eq!(
        found[0].as_ref().map(|block| block.reference()),
        Some(blocks[2].reference())
    );
    assert_eq!(
        found[0].as_ref().map(|block| block.ancestors().clone()),
        Some(blocks[2].ancestors().clone())
    );
    assert!(found[1].is_none());
    assert!(found[2].is_none());
}

#[test]
fn test_add_commit_raises_rounds_and_never_lowers_them() {
    let context = Arc::new(Context::new_for_test(4));
    let mut dag_state = DagState::new(context);
    let at = |round: Round, author: u32| {
        BlockRef::new(round, AuthorityIndex::new_for_test(author), digest_of(round, author))
    };
    let first = TrustedCommit::new_for_test(
        1,
        CommitDigest::min(),
        10,
        at(5, 1),
        vec![at(3, 0), at(5, 1), at(4, 0)],
    );
    dag_state.add_commit(first.clone());
    assert_eq!(dag_state.last_committed_rounds(), vec![4, 5, 0, 0]);
    assert_eq!(dag_state.last_commit_index(), 1);
    assert_eq!(dag_state.last_commit_digest(), first.digest());
    assert_eq!(dag_state.last_commit_timestamp_ms(), 10);

    let second = TrustedCommit::new_for_test(
        2,
        first.digest(),
        20,
        at(2, 1),
        vec![at(2, 1), at(1, 3)],
    );
    dag_state.add_commit(second);
    assert_eq!(dag_state.last_committed_rounds(), vec![4, 5, 0, 1]);
    assert_eq!(dag_state.commits_to_write.len(), 2);
    assert!(dag_state.persisted_commits.is_empty());

    dag_state.flush();
    assert!(dag_state.commits_to_write.is_empty());
    assert_eq!(dag_state.persisted_commits.len(), 2);
    assert_eq!(dag_state.persisted_commits[0].index(), 1);
    assert_eq!(dag_state.persisted_commits[1].index(), 2);
}

#[test]
fn test_commit_round_trip() {
    let at = |round: Round, author: u32| {
        BlockRef::new(round, AuthorityIndex::new_for_test(author), digest_of(round, author))
    };
    let previous = CommitDigest([7u8; 32]);
    let trusted = TrustedCommit::new_for_test(
        0x0102_0304,
        previous,
        0x1112_1314_1516_1718,
        at(9, 2),
        vec![at(7, 0), at(8, 1), at(9, 2)],
    );
    let parsed = Commit::parse(trusted.serialized()).unwrap();
    assert_eq!(parsed.index, trusted.index());
    assert_eq!(parsed.previous_digest, trusted.previous_digest());
    assert_eq!(parsed.timestamp_ms, trusted.timestamp_ms());
    assert_eq!(parsed.leader, trusted.leader());
    assert_eq!(&parsed.blocks, trusted.blocks());
    assert_eq!(&parsed.serialize(), trusted.serialized());

    // a commit without blocks
    let empty = Commit::new(1, CommitDigest::min(), 0, at(1, 1), vec![]);
    let bytes = empty.serialize();
    assert_eq!(bytes.len(), 92);
    let parsed = Commit::parse(&bytes).unwrap();
    assert_eq!(parsed.index, 1);
    assert!(parsed.blocks.is_empty());
}

#[test]
fn test_commit_bytes_are_laid_out_field_by_field() {
    let leader = BlockRef::new(2, AuthorityIndex::new_for_test(3), BlockDigest([0xaa; 32]));
    let block = BlockRef::new(1, AuthorityIndex::new_for_test(0), BlockDigest([0xbb; 32]));
    let commit = Commit::new(5, CommitDigest([0xcc; 32]), 6, leader, vec![block]);
    let mut expected = vec![];
    expected.extend_from_slice(&5u32.to_le_bytes());
    expected.extend_from_slice(&[0xcc; 32]);
    expected.extend_from_slice(&6u64.to_le_bytes());
    expected.extend_from_slice(&2u32.to_le_bytes());
    expected.extend_from_slice(&3u32.to_le_bytes());
    expected.extend_from_slice(&[0xaa; 32]);
    expected.extend_from_slice(&1u64.to_le_bytes());
    expected.extend_from_slice(&1u32.to_le_bytes());
    expected.extend_from_slice(&0u32.to_le_bytes());
    expected.extend_from_slice(&[0xbb; 32]);
    assert_eq!(commit.serialize(), expected);
}

#[test]
fn test_parse_refuses_what_is_no_commit() {
    let leader = BlockRef::new(2, AuthorityIndex::new_for_test(3), BlockDigest([1; 32]));
    let commit = Commit::new(5, CommitDigest::min(), 6, leader, vec![leader, leader]);
    let bytes = commit.serialize();
    assert!(Commit::parse(&bytes).is_some());
    // too short for a header
    assert!(Commit::parse(&bytes[..91]).is_none());
    assert!(Commit::parse(&[]).is_none());
    // a block cut short, a block too few, a byte too many
    assert!(Commit::parse(&bytes[..bytes.len() - 1]).is_none());
    assert!(Commit::parse(&bytes[..bytes.len() - 40]).is_none());
    let mut longer = bytes.clone();
    longer.push(0);
    assert!(Commit::parse(&longer).is_none());
    // the count does not match the blocks
    let mut miscounted = bytes.clone();
    miscounted[84] = 3;
    assert!(Commit::parse(&miscounted).is_none());
}

#[test]
fn test_trusted_commit_digest_is_the_hash_of_its_bytes() {
    let leader = BlockRef::new(2, AuthorityIndex::new_for_test(3), BlockDigest([1; 32]));
    let one = TrustedCommit::new_for_test(1, CommitDigest::min(), 6, leader, vec![leader]);
    let same = TrustedCommit::new_for_test(1, CommitDigest::min(), 6, leader, vec![leader]);
    let other = TrustedCommit::new_for_test(2, CommitDigest::min(), 6, leader, vec![leader]);
    assert_eq!(one.digest(), same.digest());
    assert_ne!(one.digest(), other.digest());
    assert_ne!(one.digest().0.to_vec(), one.serialized()[..32].to_vec());

    // BLAKE2b with an output of 256 bits, of the empty input
    let empty = TrustedCommit::new_trusted(
        Commit::new(0, CommitDigest::min(), 0, leader, vec![]),
        vec![],
    );
    let expected: [u8; 32] = [
        0x0e, 0x57, 0x51, 0xc0, 0x26, 0xe5, 0x43, 0xb2, 0xe8, 0xab, 0x2e, 0xb0, 0x60, 0x99, 0xda,
        0xa1, 0xd1, 0xe5, 0xdf, 0x47, 0x77, 0x8f, 0x77, 0x87, 0xfa, 0xab, 0x45, 0xcd, 0xf1, 0x2f,
        0xe3, 0xa8,
    ];
    assert_eq!(empty.digest(), CommitDigest(expected));
    let copy = one.clone();
    assert_eq!(copy.digest(), one.digest());
    assert_eq!(copy.serialized(), one.serialized());
    assert_eq!(copy.blocks(), one.blocks());
}

#[test]
fn test_sub_dag_sort_is_stable() {
    let block = |round: Round, author: u32, mark: u8| {
        let mut digest = [0u8; 32];
        digest[0] = mark;
        VerifiedBlock::new(
            round,
            AuthorityIndex::new_for_test(author),
            0,
            vec![],
            BlockDigest(digest),
        )
    };
    let blocks = vec![
        block(3, 1, 1),
        block(1, 2, 2),
        block(3, 0, 3),
        block(1, 2, 4),
        block(2, 3, 5),
        block(1, 0, 6),
        block(1, 2, 7),
    ];
    let leader = blocks[0].reference();
    let mut sub_dag = CommittedSubDag::new(leader, blocks, 12, 34);
    sub_dag.sort();
    assert_eq!(sub_dag.leader, leader);
    assert_eq!(sub_dag.timestamp_ms, 12);
    assert_eq!(sub_dag.commit_index, 34);
    assert_eq!(
        sub_dag
            .blocks
            .iter()
            .map(|block| (block.round(), block.author().value(), block.reference().digest.0[0]))
            .collect::<Vec<_>>(),
        vec![
            (1, 0, 6),
            (1, 2, 2),
            (1, 2, 4),
            (1, 2, 7),
            (2, 3, 5),
            (3, 0, 3),
            (3, 1, 1),
        ]
    );
}

#[test]
fn test_block_reference_tells_digests_apart() {
    let one = BlockRef::new(1, AuthorityIndex::new_for_test(0), digest_of(1, 0));
    let same = BlockRef::new(1, AuthorityIndex::new_for_test(0), digest_of(1, 0));
    let mut digest = digest_of(1, 0);
    digest.0[31] = 1;
    let other = BlockRef::new(1, AuthorityIndex::new_for_test(0), digest);
    assert_eq!(one, same);
    assert_ne!(one, other);
    assert_ne!(one, BlockRef::new(2, AuthorityIndex::new_for_test(0), digest_of(1, 0)));
    assert_ne!(one, BlockRef::new(1, AuthorityIndex::new_for_test(1), digest_of(1, 0)));
    assert_eq!(BlockDigest::min(), BlockDigest([0; 32]));
}

#[test]
fn test_dag_state_sees_what_is_not_well_formed() {
    let context = Arc::new(Context::new_for_test(4));
    let mut dag_builder = DagBuilder::new(context.clone());
    dag_builder.build_layers(1);
    let mut dag_state = DagState::new(context.clone());
    dag_state.accept_blocks(dag_builder.blocks(1..=1));
    assert!(dag_state.is_well_formed());

    // two blocks under one reference
    let mut twice = DagState::new(context.clone());
    twice.blocks = dag_builder.blocks(1..=1);
    twice.blocks.push(dag_builder.blocks(1..=1)[2].clone());
    assert!(!twice.is_well_formed());

    // a last committed round too few
    let mut short = DagState::new(context.clone());
    short.last_committed_rounds.pop();
    assert!(!short.is_well_formed());

    // more blocks flushed than accepted
    let mut ahead = DagState::new(context.clone());
    ahead.flushed_blocks = 1;
    assert!(!ahead.is_well_formed());

    // a committee whose total is not the sum of its stakes
    let mut off = Context::new_for_test(4);
    off.committee.total_stake = 5;
    assert!(!off.committee.is_well_formed());
    let mut none = DagState::new(context);
    none.context = Arc::new(off);
    assert!(!none.is_well_formed());
}
