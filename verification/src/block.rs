//! Blocks of the DAG and the references that identify them.

use crate::types::{AuthorityIndex, BlockTimestampMs, Round};
use vstd::prelude::*;
use vstd::std_specs::cmp::PartialEqSpecImpl;

verus! {

/// Content digest of a block.
#[derive(Clone, Copy, Debug, Eq, Hash)]
pub struct BlockDigest(pub [u8; 32]);

impl PartialEq for BlockDigest {
    fn eq(&self, other: &Self) -> (r: bool) {
        let mut i: usize = 0;
        while i < 32
            invariant
                i <= 32,
                forall|j: int| 0 <= j < i ==> self.0[j] == other.0[j],
            decreases 32 - i,
        {
            if self.0[i] != other.0[i] {
                return false;
            }
            i += 1;
        }
        assert(self.0 =~= other.0);
        true
    }
}

impl PartialEqSpecImpl for BlockDigest {
    open spec fn obeys_eq_spec() -> bool {
        true
    }

    open spec fn eq_spec(&self, other: &Self) -> bool {
        *self == *other
    }
}

impl BlockDigest {
    /// The smallest digest: thirty-two zero bytes.
    pub fn min() -> (r: Self)
        ensures
            r.0@ == Seq::new(32, |i: int| 0u8),
    {
        let r = BlockDigest([0u8; 32]);
        assert(r.0@ =~= Seq::new(32, |i: int| 0u8));
        r
    }
}

/// Identity of a block: who proposed it, in which round, with which content.
#[derive(Clone, Copy, Debug, Eq, Hash)]
pub struct BlockRef {
    pub round: Round,
    pub author: AuthorityIndex,
    pub digest: BlockDigest,
}

impl PartialEq for BlockRef {
    fn eq(&self, other: &Self) -> (r: bool) {
        self.round == other.round && self.author == other.author && self.digest == other.digest
    }
}

impl PartialEqSpecImpl for BlockRef {
    open spec fn obeys_eq_spec() -> bool {
        true
    }

    open spec fn eq_spec(&self, other: &Self) -> bool {
        *self == *other
    }
}

impl BlockRef {
    pub fn new(round: Round, author: AuthorityIndex, digest: BlockDigest) -> (r: Self)
        ensures
            r == (BlockRef { round, author, digest }),
    {
        BlockRef { round, author, digest }
    }
}

/// What a block is, as a mathematical value.
pub struct BlockView {
    pub round: Round,
    pub author: AuthorityIndex,
    pub timestamp_ms: BlockTimestampMs,
    pub ancestors: Seq<BlockRef>,
    pub digest: BlockDigest,
}

impl BlockView {
    /// The reference under which the block is known.
    pub open spec fn reference(self) -> BlockRef {
        BlockRef { round: self.round, author: self.author, digest: self.digest }
    }

    /// The author and the author of every ancestor are among `committee_size` authorities.
    pub open spec fn within(self, committee_size: int) -> bool {
        &&& self.author.0 < committee_size
        &&& forall|k: int|
            0 <= k < self.ancestors.len() ==> (#[trigger] self.ancestors[k]).author.0
                < committee_size
    }
}

/// A block whose signature and structure were validated before it got here.
#[derive(Debug)]
pub struct VerifiedBlock {
    pub round: Round,
    pub author: AuthorityIndex,
    pub timestamp_ms: BlockTimestampMs,
    pub ancestors: Vec<BlockRef>,
    pub digest: BlockDigest,
}

impl View for VerifiedBlock {
    type V = BlockView;

    open spec fn view(&self) -> BlockView {
        BlockView {
            round: self.round,
            author: self.author,
            timestamp_ms: self.timestamp_ms,
            ancestors: self.ancestors@,
            digest: self.digest,
        }
    }
}

impl Clone for VerifiedBlock {
    fn clone(&self) -> (r: Self)
        ensures
            r@ == self@,
    {
        let mut ancestors: Vec<BlockRef> = Vec::new();
        let mut i: usize = 0;
        while i < self.ancestors.len()
            invariant
                i <= self.ancestors.len(),
                ancestors@ == self.ancestors@.take(i as int),
            decreases self.ancestors.len() - i,
        {
            ancestors.push(self.ancestors[i]);
            assert(self.ancestors@.take(i as int).push(self.ancestors@[i as int])
                =~= self.ancestors@.take(i + 1));
            i += 1;
        }
        assert(self.ancestors@.take(self.ancestors@.len() as int) =~= self.ancestors@);
        VerifiedBlock {
            round: self.round,
            author: self.author,
            timestamp_ms: self.timestamp_ms,
            ancestors,
            digest: self.digest,
        }
    }
}

impl VerifiedBlock {
    pub fn new(
        round: Round,
        author: AuthorityIndex,
        timestamp_ms: BlockTimestampMs,
        ancestors: Vec<BlockRef>,
        digest: BlockDigest,
    ) -> (r: Self)
        ensures
            r@ == (BlockView { round, author, timestamp_ms, ancestors: ancestors@, digest }),
    {
        VerifiedBlock { round, author, timestamp_ms, ancestors, digest }
    }

    pub fn reference(&self) -> (r: BlockRef)
        ensures
            r == self@.reference(),
    {
        BlockRef { round: self.round, author: self.author, digest: self.digest }
    }

    pub fn round(&self) -> (r: Round)
        ensures
            r == self@.round,
    {
        self.round
    }

    pub fn author(&self) -> (r: AuthorityIndex)
        ensures
            r == self@.author,
    {
        self.author
    }

    pub fn timestamp_ms(&self) -> (r: BlockTimestampMs)
        ensures
            r == self@.timestamp_ms,
    {
        self.timestamp_ms
    }

    pub fn ancestors(&self) -> (r: &Vec<BlockRef>)
        ensures
            r@ == self@.ancestors,
    {
        &self.ancestors
    }
}

/// The views of a sequence of blocks, position by position.
pub open spec fn block_views(blocks: Seq<VerifiedBlock>) -> Seq<BlockView> {
    Seq::new(blocks.len(), |i: int| blocks[i]@)
}

/// The references of a sequence of blocks, position by position.
pub open spec fn block_refs(blocks: Seq<VerifiedBlock>) -> Seq<BlockRef> {
    Seq::new(blocks.len(), |i: int| blocks[i]@.reference())
}

} // verus!
