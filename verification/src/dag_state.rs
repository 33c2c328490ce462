//! The blocks that were accepted into the DAG, and how far they are committed.

use crate::block::{block_views, BlockRef, BlockView, VerifiedBlock};
use crate::commit::{CommitDigest, TrustedCommit, TrustedCommitView};
use crate::committee::Context;
use crate::types::{BlockTimestampMs, CommitIndex, Round};
use std::sync::Arc;
use vstd::prelude::*;

verus! {

/// Some block of `blocks` is known under `r`.
pub open spec fn holds_ref(blocks: Seq<VerifiedBlock>, r: BlockRef) -> bool {
    exists|i: int| 0 <= i < blocks.len() && (#[trigger] blocks[i])@.reference() == r
}

/// Some block of `blocks` is `block`.
pub open spec fn holds_block(blocks: Seq<VerifiedBlock>, block: BlockView) -> bool {
    exists|i: int| 0 <= i < blocks.len() && (#[trigger] blocks[i])@ == block
}

/// No two blocks of `blocks` are known under one reference.
pub open spec fn refs_are_unique(blocks: Seq<VerifiedBlock>) -> bool {
    forall|i: int, j: int|
        0 <= i < j < blocks.len() ==> (#[trigger] blocks[i])@.reference()
            != (#[trigger] blocks[j])@.reference()
}

/// Some block of `views` is known under `r`.
pub open spec fn views_hold_ref(views: Seq<BlockView>, r: BlockRef) -> bool {
    exists|i: int| 0 <= i < views.len() && (#[trigger] views[i]).reference() == r
}

/// The accepted blocks after `block` is offered: as before where a block
/// is known under its reference, otherwise with `block` at the end.
pub open spec fn offer(store: Seq<BlockView>, block: BlockView) -> Seq<BlockView> {
    if views_hold_ref(store, block.reference()) {
        store
    } else {
        store.push(block)
    }
}

/// The accepted blocks after each of `blocks` is offered in turn.
pub open spec fn offer_all(store: Seq<BlockView>, blocks: Seq<BlockView>) -> Seq<BlockView>
    decreases blocks.len(),
{
    if blocks.len() == 0 {
        store
    } else {
        offer(offer_all(store, blocks.drop_last()), blocks.last())
    }
}

/// The block that `r` names lies above the last committed round of its author.
pub open spec fn is_pending(floors: Seq<Round>, r: BlockRef) -> bool {
    r.author.0 < floors.len() && floors[r.author.0 as int] < r.round
}

/// Every ancestor of `block` that is still pending is among `blocks`.
pub open spec fn pending_ancestors_held(
    blocks: Seq<VerifiedBlock>,
    floors: Seq<Round>,
    block: BlockView,
) -> bool {
    forall|k: int|
        0 <= k < block.ancestors.len() && is_pending(floors, #[trigger] block.ancestors[k])
            ==> holds_ref(blocks, block.ancestors[k])
}

/// Every pending ancestor of every block of `blocks` is among `blocks`.
pub open spec fn is_causally_closed(blocks: Seq<VerifiedBlock>, floors: Seq<Round>) -> bool {
    forall|i: int|
        0 <= i < blocks.len() ==> pending_ancestors_held(blocks, floors, (#[trigger] blocks[i])@)
}

/// The last committed rounds after the blocks named by `refs` are committed:
/// the round of each author is raised to the round of its block, never lowered.
pub open spec fn raise_floors(floors: Seq<Round>, refs: Seq<BlockRef>) -> Seq<Round>
    decreases refs.len(),
{
    if refs.len() == 0 {
        floors
    } else {
        let raised = raise_floors(floors, refs.drop_last());
        if is_pending(raised, refs.last()) {
            raised.update(refs.last().author.0 as int, refs.last().round)
        } else {
            raised
        }
    }
}

/// Raising keeps the number of authorities, lowers no round, and takes the
/// round of each author to at least the round of each of its blocks.
pub proof fn lemma_raise_floors(floors: Seq<Round>, refs: Seq<BlockRef>)
    ensures
        raise_floors(floors, refs).len() == floors.len(),
        forall|a: int| 0 <= a < floors.len() ==> floors[a] <= #[trigger] raise_floors(floors, refs)[a],
        forall|k: int|
            0 <= k < refs.len() && (#[trigger] refs[k]).author.0 < floors.len() ==> refs[k].round
                <= raise_floors(floors, refs)[refs[k].author.0 as int],
    decreases refs.len(),
{
    if refs.len() > 0 {
        let head = refs.drop_last();
        lemma_raise_floors(floors, head);
        assert forall|k: int|
            0 <= k < refs.len() && (#[trigger] refs[k]).author.0 < floors.len() implies refs[k].round
            <= raise_floors(floors, refs)[refs[k].author.0 as int] by {
            if k < refs.len() - 1 {
                assert(head[k] == refs[k]);
            }
        }
    }
}

/// The accepted blocks, the last commit, the last committed round of each
/// author, and the commits that wait to be written or were written.
pub struct DagState {
    pub context: Arc<Context>,
    /// The accepted blocks, in the order in which they were accepted.
    pub blocks: Vec<VerifiedBlock>,
    /// How many of the accepted blocks were flushed.
    pub flushed_blocks: usize,
    pub last_commit: Option<TrustedCommit>,
    /// The last committed round of each author, by position.
    pub last_committed_rounds: Vec<Round>,
    /// The commits that were added since the last flush.
    pub commits_to_write: Vec<TrustedCommit>,
    /// The commits that were flushed.
    pub persisted_commits: Vec<TrustedCommit>,
}

/// The views of a sequence of commits, position by position.
pub open spec fn commit_views(commits: Seq<TrustedCommit>) -> Seq<TrustedCommitView> {
    Seq::new(commits.len(), |i: int| commits[i]@)
}

impl DagState {
    pub open spec fn spec_size(&self) -> int {
        self.context.committee.spec_size()
    }

    /// There is one last committed round per authority, every block was
    /// proposed by a member and names members as authors of its ancestors, no
    /// two blocks are known under one reference, and no more blocks were
    /// flushed than accepted.
    pub open spec fn wf(&self) -> bool {
        &&& self.context.wf()
        &&& self.last_committed_rounds@.len() == self.spec_size()
        &&& forall|i: int|
            0 <= i < self.blocks@.len() ==> (#[trigger] self.blocks@[i])@.within(self.spec_size())
        &&& refs_are_unique(self.blocks@)
        &&& self.flushed_blocks <= self.blocks@.len()
    }

    pub open spec fn spec_last_commit_index(&self) -> CommitIndex {
        match self.last_commit {
            Some(commit) => commit@.commit.index,
            None => 0,
        }
    }

    pub open spec fn spec_last_commit_timestamp_ms(&self) -> BlockTimestampMs {
        match self.last_commit {
            Some(commit) => commit@.commit.timestamp_ms,
            None => 0,
        }
    }

    /// The digest of the last commit, or thirty-two zero bytes before the first.
    pub open spec fn spec_last_commit_digest(&self) -> Seq<u8> {
        match self.last_commit {
            Some(commit) => commit@.digest.0@,
            None => CommitDigest::spec_min(),
        }
    }

    /// A state without blocks and without commits.
    pub fn new(context: Arc<Context>) -> (r: Self)
        requires
            context.wf(),
        ensures
            r.wf(),
            r.context == context,
            r.blocks@.len() == 0,
            r.flushed_blocks == 0,
            r.last_commit.is_none(),
            r.last_committed_rounds@ == Seq::new(context.committee.spec_size() as nat, |i: int| 0u32),
            r.commits_to_write@.len() == 0,
            r.persisted_commits@.len() == 0,
    {
        let size = context.committee.size();
        let mut last_committed_rounds: Vec<Round> = Vec::new();
        let mut i: usize = 0;
        while i < size
            invariant
                i <= size,
                last_committed_rounds@ == Seq::new(i as nat, |k: int| 0u32),
            decreases size - i,
        {
            last_committed_rounds.push(0);
            assert(last_committed_rounds@ =~= Seq::new((i + 1) as nat, |k: int| 0u32));
            i += 1;
        }
        DagState {
            context,
            blocks: Vec::new(),
            flushed_blocks: 0,
            last_commit: None,
            last_committed_rounds,
            commits_to_write: Vec::new(),
            persisted_commits: Vec::new(),
        }
    }

    /// Whether `block` was proposed by a member and names members as authors
    /// of its ancestors.
    pub fn is_within(&self, block: &VerifiedBlock) -> (r: bool)
        ensures
            r == block@.within(self.spec_size()),
    {
        let size = self.context.committee.size();
        if block.author.value() >= size {
            return false;
        }
        let mut k: usize = 0;
        while k < block.ancestors.len()
            invariant
                k <= block.ancestors@.len(),
                size == self.spec_size(),
                forall|j: int| 0 <= j < k ==> (#[trigger] block.ancestors@[j]).author.0 < size,
            decreases block.ancestors@.len() - k,
        {
            if block.ancestors[k].author.value() >= size {
                assert(block@.ancestors[k as int].author.0 >= size);
                return false;
            }
            k += 1;
        }
        true
    }

    /// Whether the state is well formed, for callers that cannot know.
    pub fn is_well_formed(&self) -> (r: bool)
        ensures
            r == self.wf(),
    {
        if !self.context.committee.is_well_formed() {
            return false;
        }
        if self.last_committed_rounds.len() != self.context.committee.size() {
            return false;
        }
        if self.flushed_blocks > self.blocks.len() {
            return false;
        }
        let mut i: usize = 0;
        while i < self.blocks.len()
            invariant
                i <= self.blocks@.len(),
                forall|k: int|
                    0 <= k < i ==> (#[trigger] self.blocks@[k])@.within(self.spec_size()),
                forall|a: int, b: int|
                    0 <= a < b < i ==> (#[trigger] self.blocks@[a])@.reference()
                        != (#[trigger] self.blocks@[b])@.reference(),
            decreases self.blocks@.len() - i,
        {
            if !self.is_within(&self.blocks[i]) {
                return false;
            }
            let r = self.blocks[i].reference();
            let mut j: usize = 0;
            while j < i
                invariant
                    j <= i < self.blocks@.len(),
                    r == self.blocks@[i as int]@.reference(),
                    forall|a: int| 0 <= a < j ==> (#[trigger] self.blocks@[a])@.reference() != r,
                decreases i - j,
            {
                if self.blocks[j].reference() == r {
                    return false;
                }
                j += 1;
            }
            i += 1;
        }
        true
    }

    /// Whether every ancestor of `block` that lies above the last committed
    /// round of its author was accepted.
    pub fn holds_pending_ancestors(&self, block: &VerifiedBlock) -> (r: bool)
        requires
            self.last_committed_rounds@.len() == self.spec_size(),
            block@.within(self.spec_size()),
        ensures
            r == pending_ancestors_held(self.blocks@, self.last_committed_rounds@, block@),
    {
        let mut k: usize = 0;
        while k < block.ancestors.len()
            invariant
                k <= block.ancestors@.len(),
                self.last_committed_rounds@.len() == self.spec_size(),
                block@.within(self.spec_size()),
                forall|j: int|
                    0 <= j < k && is_pending(
                        self.last_committed_rounds@,
                        #[trigger] block.ancestors@[j],
                    ) ==> holds_ref(self.blocks@, block.ancestors@[j]),
            decreases block.ancestors@.len() - k,
        {
            let ancestor = block.ancestors[k];
            assert(block@.ancestors[k as int] == ancestor);
            if self.last_committed_rounds[ancestor.author.value()] < ancestor.round
                && !self.contains_block(&ancestor) {
                assert(is_pending(self.last_committed_rounds@, block@.ancestors[k as int]));
                return false;
            }
            k += 1;
        }
        true
    }

    /// Whether every pending ancestor of every accepted block was accepted.
    pub fn is_closed(&self) -> (r: bool)
        requires
            self.wf(),
        ensures
            r == is_causally_closed(self.blocks@, self.last_committed_rounds@),
    {
        let mut i: usize = 0;
        while i < self.blocks.len()
            invariant
                self.wf(),
                i <= self.blocks@.len(),
                forall|k: int|
                    0 <= k < i ==> pending_ancestors_held(
                        self.blocks@,
                        self.last_committed_rounds@,
                        (#[trigger] self.blocks@[k])@,
                    ),
            decreases self.blocks@.len() - i,
        {
            if !self.holds_pending_ancestors(&self.blocks[i]) {
                return false;
            }
            i += 1;
        }
        true
    }

    /// Where the block known under `r` stands, if it was accepted.
    fn position_of(&self, r: &BlockRef) -> (position: Option<usize>)
        ensures
            position matches Some(i) ==> i < self.blocks@.len() && self.blocks@[i as int]@.reference()
                == *r,
            position.is_none() ==> !holds_ref(self.blocks@, *r),
    {
        let mut i: usize = 0;
        while i < self.blocks.len()
            invariant
                i <= self.blocks@.len(),
                forall|k: int| 0 <= k < i ==> (#[trigger] self.blocks@[k])@.reference() != *r,
            decreases self.blocks@.len() - i,
        {
            if self.blocks[i].reference() == *r {
                return Some(i);
            }
            i += 1;
        }
        None
    }

    /// Whether the block known under `r` was accepted.
    pub fn contains_block(&self, r: &BlockRef) -> (found: bool)
        ensures
            found == holds_ref(self.blocks@, *r),
    {
        self.position_of(r).is_some()
    }

    /// Accepts `block`, unless a block is already known under its reference.
    pub fn accept_block(&mut self, block: VerifiedBlock)
        requires
            old(self).wf(),
            block@.within(old(self).spec_size()),
        ensures
            final(self).wf(),
            holds_ref(old(self).blocks@, block@.reference()) ==> final(self).blocks@ == old(
                self,
            ).blocks@,
            !holds_ref(old(self).blocks@, block@.reference()) ==> final(self).blocks@ == old(
                self,
            ).blocks@.push(block),
            final(self).context == old(self).context,
            final(self).flushed_blocks == old(self).flushed_blocks,
            final(self).last_commit == old(self).last_commit,
            final(self).last_committed_rounds == old(self).last_committed_rounds,
            final(self).commits_to_write == old(self).commits_to_write,
            final(self).persisted_commits == old(self).persisted_commits,
    {
        let r = block.reference();
        if !self.contains_block(&r) {
            self.blocks.push(block);
        }
    }

    /// Accepts the blocks in order, each unless a block is already known
    /// under its reference.
    pub fn accept_blocks(&mut self, blocks: Vec<VerifiedBlock>)
        requires
            old(self).wf(),
            forall|i: int|
                0 <= i < blocks@.len() ==> (#[trigger] blocks@[i])@.within(old(self).spec_size()),
        ensures
            final(self).wf(),
            block_views(final(self).blocks@) == offer_all(
                block_views(old(self).blocks@),
                block_views(blocks@),
            ),
            final(self).blocks@.len() >= old(self).blocks@.len(),
            final(self).blocks@.take(old(self).blocks@.len() as int) == old(self).blocks@,
            forall|i: int|
                0 <= i < blocks@.len() ==> holds_ref(
                    final(self).blocks@,
                    (#[trigger] blocks@[i])@.reference(),
                ),
            forall|k: int|
                old(self).blocks@.len() <= k < final(self).blocks@.len() ==> holds_block(
                    blocks@,
                    (#[trigger] final(self).blocks@[k])@,
                ),
            final(self).context == old(self).context,
            final(self).flushed_blocks == old(self).flushed_blocks,
            final(self).last_commit == old(self).last_commit,
            final(self).last_committed_rounds == old(self).last_committed_rounds,
            final(self).commits_to_write == old(self).commits_to_write,
            final(self).persisted_commits == old(self).persisted_commits,
    {
        let ghost before = self.blocks@;
        let mut i: usize = 0;
        while i < blocks.len()
            invariant
                i <= blocks@.len(),
                self.wf(),
                self.spec_size() == old(self).spec_size(),
                forall|k: int|
                    0 <= k < blocks@.len() ==> (#[trigger] blocks@[k])@.within(self.spec_size()),
                before == old(self).blocks@,
                block_views(self.blocks@) == offer_all(
                    block_views(before),
                    block_views(blocks@).take(i as int),
                ),
                self.blocks@.len() >= before.len(),
                self.blocks@.take(before.len() as int) == before,
                forall|k: int|
                    0 <= k < i ==> holds_ref(self.blocks@, (#[trigger] blocks@[k])@.reference()),
                forall|k: int|
                    before.len() <= k < self.blocks@.len() ==> holds_block(
                        blocks@,
                        (#[trigger] self.blocks@[k])@,
                    ),
                self.context == old(self).context,
                self.flushed_blocks == old(self).flushed_blocks,
                self.last_commit == old(self).last_commit,
                self.last_committed_rounds == old(self).last_committed_rounds,
                self.commits_to_write == old(self).commits_to_write,
                self.persisted_commits == old(self).persisted_commits,
            decreases blocks@.len() - i,
        {
            let ghost held = self.blocks@;
            self.accept_block(blocks[i].clone());
            proof {
                let offered = block_views(blocks@);
                assert(offered.take(i + 1).drop_last() =~= offered.take(i as int));
                assert(offered.take(i + 1).last() == blocks@[i as int]@);
                if holds_ref(held, blocks@[i as int]@.reference()) {
                    let at = choose|at: int|
                        0 <= at < held.len() && (#[trigger] held[at])@.reference()
                            == blocks@[i as int]@.reference();
                    assert(block_views(held)[at].reference() == blocks@[i as int]@.reference());
                } else {
                    if views_hold_ref(block_views(held), blocks@[i as int]@.reference()) {
                        let at = choose|at: int|
                            0 <= at < block_views(held).len() && (#[trigger] block_views(
                                held,
                            )[at]).reference() == blocks@[i as int]@.reference();
                        assert(held[at]@.reference() == blocks@[i as int]@.reference());
                    }
                    assert(block_views(self.blocks@) =~= block_views(held).push(
                        blocks@[i as int]@,
                    ));
                }
            }
            proof {
                assert(self.blocks@.take(before.len() as int) =~= held.take(before.len() as int));
                assert forall|k: int| 0 <= k < i + 1 implies holds_ref(
                    self.blocks@,
                    (#[trigger] blocks@[k])@.reference(),
                ) by {
                    if k < i {
                        let at = choose|at: int|
                            0 <= at < held.len() && (#[trigger] held[at])@.reference()
                                == blocks@[k]@.reference();
                        assert(self.blocks@[at] == held[at]);
                    } else {
                        if holds_ref(held, blocks@[k]@.reference()) {
                        } else {
                            assert(self.blocks@[held.len() as int]@ == blocks@[k]@);
                        }
                    }
                }
                assert forall|k: int| before.len() <= k < self.blocks@.len() implies holds_block(
                    blocks@,
                    (#[trigger] self.blocks@[k])@,
                ) by {
                    if k < held.len() {
                        assert(self.blocks@[k] == held[k]);
                    } else {
                        assert(self.blocks@[k]@ == blocks@[i as int]@);
                    }
                }
            }
            i += 1;
        }
        assert(block_views(blocks@).take(blocks@.len() as int) =~= block_views(blocks@));
    }

    /// The accepted block under each reference, or `None` where none was
    /// accepted under it, position by position.
    pub fn get_blocks(&self, refs: &[BlockRef]) -> (found: Vec<Option<VerifiedBlock>>)
        ensures
            found@.len() == refs@.len(),
            forall|i: int|
                0 <= i < refs@.len() ==> match #[trigger] found@[i] {
                    Some(block) => block@.reference() == refs@[i] && holds_block(
                        self.blocks@,
                        block@,
                    ),
                    None => !holds_ref(self.blocks@, refs@[i]),
                },
    {
        let mut found: Vec<Option<VerifiedBlock>> = Vec::new();
        let mut i: usize = 0;
        while i < refs.len()
            invariant
                i <= refs@.len(),
                found@.len() == i,
                forall|k: int|
                    0 <= k < i ==> match #[trigger] found@[k] {
                        Some(block) => block@.reference() == refs@[k] && holds_block(
                            self.blocks@,
                            block@,
                        ),
                        None => !holds_ref(self.blocks@, refs@[k]),
                    },
            decreases refs@.len() - i,
        {
            match self.position_of(&refs[i]) {
                Some(at) => {
                    let block = self.blocks[at].clone();
                    assert(self.blocks@[at as int]@ == block@);
                    found.push(Some(block));
                },
                None => {
                    found.push(None);
                },
            }
            i += 1;
        }
        found
    }

    /// Index of the last commit; 0 before the first.
    pub fn last_commit_index(&self) -> (r: CommitIndex)
        ensures
            r == self.spec_last_commit_index(),
    {
        match &self.last_commit {
            Some(commit) => commit.index(),
            None => 0,
        }
    }

    /// Digest of the last commit; thirty-two zero bytes before the first.
    pub fn last_commit_digest(&self) -> (r: CommitDigest)
        ensures
            r.0@ == self.spec_last_commit_digest(),
    {
        match &self.last_commit {
            Some(commit) => commit.digest(),
            None => CommitDigest::min(),
        }
    }

    /// Time of the last commit; 0 before the first.
    pub fn last_commit_timestamp_ms(&self) -> (r: BlockTimestampMs)
        ensures
            r == self.spec_last_commit_timestamp_ms(),
    {
        match &self.last_commit {
            Some(commit) => commit.timestamp_ms(),
            None => 0,
        }
    }

    /// A copy of the last committed round of each author.
    pub fn last_committed_rounds(&self) -> (r: Vec<Round>)
        ensures
            r@ == self.last_committed_rounds@,
    {
        let mut rounds: Vec<Round> = Vec::new();
        let mut i: usize = 0;
        while i < self.last_committed_rounds.len()
            invariant
                i <= self.last_committed_rounds@.len(),
                rounds@ == self.last_committed_rounds@.take(i as int),
            decreases self.last_committed_rounds@.len() - i,
        {
            rounds.push(self.last_committed_rounds[i]);
            assert(self.last_committed_rounds@.take(i as int).push(
                self.last_committed_rounds@[i as int],
            ) =~= self.last_committed_rounds@.take(i + 1));
            i += 1;
        }
        assert(self.last_committed_rounds@.take(self.last_committed_rounds@.len() as int)
            =~= self.last_committed_rounds@);
        rounds
    }

    /// Takes `commit` as the last commit, keeps it to be written, and raises
    /// the last committed round of each author whose block it commits.
    pub fn add_commit(&mut self, commit: TrustedCommit)
        requires
            old(self).wf(),
            forall|k: int|
                0 <= k < commit@.commit.blocks.len() ==> (#[trigger] commit@.commit.blocks[k]).author.0
                    < old(self).spec_size(),
        ensures
            final(self).wf(),
            final(self).last_commit matches Some(last) && last@ == commit@,
            commit_views(final(self).commits_to_write@) == commit_views(
                old(self).commits_to_write@,
            ).push(commit@),
            final(self).last_committed_rounds@ == raise_floors(
                old(self).last_committed_rounds@,
                commit@.commit.blocks,
            ),
            final(self).context == old(self).context,
            final(self).blocks == old(self).blocks,
            final(self).flushed_blocks == old(self).flushed_blocks,
            final(self).persisted_commits == old(self).persisted_commits,
    {
        let ghost floors = self.last_committed_rounds@;
        let ghost refs = commit@.commit.blocks;
        let n = commit.blocks().len();
        let mut i: usize = 0;
        while i < n
            invariant
                n == refs.len(),
                refs == commit@.commit.blocks,
                i <= n,
                floors.len() == self.spec_size(),
                forall|k: int| 0 <= k < refs.len() ==> (#[trigger] refs[k]).author.0 < floors.len(),
                self.last_committed_rounds@ == raise_floors(floors, refs.take(i as int)),
                self.last_committed_rounds@.len() == floors.len(),
                self.context == old(self).context,
                self.blocks == old(self).blocks,
                self.flushed_blocks == old(self).flushed_blocks,
                self.last_commit == old(self).last_commit,
                self.commits_to_write == old(self).commits_to_write,
                self.persisted_commits == old(self).persisted_commits,
            decreases n - i,
        {
            let r = commit.blocks()[i];
            let author = r.author.value();
            proof {
                assert(refs.take(i + 1).drop_last() =~= refs.take(i as int));
                assert(refs.take(i + 1).last() == refs[i as int]);
            }
            if self.last_committed_rounds[author] < r.round {
                self.last_committed_rounds[author] = r.round;
            }
            i += 1;
        }
        assert(refs.take(n as int) =~= refs);
        let ghost waiting = self.commits_to_write@;
        self.commits_to_write.push(commit.clone());
        assert(commit_views(self.commits_to_write@) =~= commit_views(waiting).push(commit@));
        self.last_commit = Some(commit);
    }

    /// Writes what waits to be written: every accepted block counts as
    /// flushed, and the waiting commits join the written ones, in order.
    pub fn flush(&mut self)
        requires
            old(self).wf(),
        ensures
            final(self).wf(),
            final(self).flushed_blocks == old(self).blocks@.len(),
            commit_views(final(self).persisted_commits@) == commit_views(
                old(self).persisted_commits@,
            ) + commit_views(old(self).commits_to_write@),
            final(self).commits_to_write@.len() == 0,
            final(self).context == old(self).context,
            final(self).blocks == old(self).blocks,
            final(self).last_commit == old(self).last_commit,
            final(self).last_committed_rounds == old(self).last_committed_rounds,
    {
        let ghost written = self.persisted_commits@;
        let ghost waiting = self.commits_to_write@;
        self.flushed_blocks = self.blocks.len();
        self.persisted_commits.append(&mut self.commits_to_write);
        assert(commit_views(self.persisted_commits@) =~= commit_views(written) + commit_views(
            waiting,
        ));
    }
}

} // verus!
