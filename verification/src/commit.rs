//! Commits, the ranges of commits that scores are computed over, and the
//! sub-DAGs that commits stand for.

use crate::block::{block_views, BlockDigest, BlockRef, BlockView, VerifiedBlock};
use crate::hashing::{blake2b_256, hash_bytes};
use crate::ordering::{
    is_ordered, lemma_stable_order_sorted, lists_all, sort_positions, stable_order, stands_before,
    SortKey,
};
use crate::types::{AuthorityIndex, BlockTimestampMs, CommitIndex};
use core::ops::Range;
use vstd::bytes::{
    lemma_auto_spec_u32_to_from_le_bytes, lemma_auto_spec_u64_to_from_le_bytes,
    spec_u32_from_le_bytes, spec_u32_to_le_bytes, spec_u64_from_le_bytes, spec_u64_to_le_bytes,
    u32_from_le_bytes, u32_to_le_bytes, u64_from_le_bytes, u64_to_le_bytes,
};
use vstd::prelude::*;
use vstd::slice::slice_subrange;
use vstd::std_specs::cmp::PartialEqSpecImpl;

verus! {

/// The commit indices from `start` up to, and not including, `end`.
#[derive(Clone, Copy, Debug, PartialEq, Eq, Structural)]
pub struct CommitRange {
    pub start: CommitIndex,
    pub end: CommitIndex,
}

impl Default for CommitRange {
    fn default() -> (r: Self)
        ensures
            r == (CommitRange { start: 0, end: 0 }),
    {
        CommitRange { start: 0, end: 0 }
    }
}

impl CommitRange {
    pub fn new(range: Range<CommitIndex>) -> (r: Self)
        ensures
            r.start == range.start,
            r.end == range.end,
    {
        CommitRange { start: range.start, end: range.end }
    }

    /// Number of indices in the range; none where the end is not past the start.
    pub open spec fn spec_size(self) -> int {
        if self.end >= self.start {
            self.end - self.start
        } else {
            0
        }
    }

    /// The empty range at 0 that stands for "no scores yet".
    pub open spec fn spec_is_initial(self) -> bool {
        self.start == 0 && self.end == 0
    }

    /// `other` has the size of this range and starts where this range ends.
    pub open spec fn spec_is_next_range(self, other: CommitRange) -> bool {
        &&& self.spec_size() == other.spec_size()
        &&& self.end == other.start
    }

    /// First index of the range.
    pub fn start(&self) -> (r: CommitIndex)
        ensures
            r == self.start,
    {
        self.start
    }

    /// One past the last index of the range.
    pub fn end(&self) -> (r: CommitIndex)
        ensures
            r == self.end,
    {
        self.end
    }

    pub fn size(&self) -> (r: u32)
        ensures
            r == self.spec_size(),
    {
        if self.end >= self.start {
            self.end - self.start
        } else {
            0
        }
    }

    pub fn is_initial(&self) -> (r: bool)
        ensures
            r == self.spec_is_initial(),
    {
        self.start == 0 && self.end == 0
    }

    pub fn is_next_range(&self, other: &CommitRange) -> (r: bool)
        ensures
            r == self.spec_is_next_range(*other),
    {
        self.size() == other.size() && self.end == other.start
    }
}


/// Digest of a commit: the hash of its serialized form.
#[derive(Clone, Copy, Debug, Eq, Hash)]
pub struct CommitDigest(pub [u8; 32]);

impl PartialEq for CommitDigest {
    fn eq(&self, other: &Self) -> (r: bool) {
        let mut i: usize = 0;
        while i < 32
            invariant
                i <= 32,
                forall|j: int| 0 <= j < i ==> self.0[j] == other.0[j],
            decreases 32 - i,
        {
            if self.0[i] != other.0[i] {
                return false;
            }
            i += 1;
        }
        assert(self.0 =~= other.0);
        true
    }
}

impl PartialEqSpecImpl for CommitDigest {
    open spec fn obeys_eq_spec() -> bool {
        true
    }

    open spec fn eq_spec(&self, other: &Self) -> bool {
        *self == *other
    }
}

impl CommitDigest {
    /// The digest that stands before the first commit: thirty-two zero bytes.
    pub open spec fn spec_min() -> Seq<u8> {
        Seq::new(32, |i: int| 0u8)
    }

    /// The digest that stands before the first commit.
    pub fn min() -> (r: Self)
        ensures
            r.0@ == Self::spec_min(),
    {
        let r = CommitDigest([0u8; 32]);
        assert(r.0@ =~= Self::spec_min());
        r
    }
}

/// What a commit is, as a mathematical value.
pub struct CommitView {
    pub index: CommitIndex,
    pub previous_digest: CommitDigest,
    pub timestamp_ms: BlockTimestampMs,
    pub leader: BlockRef,
    pub blocks: Seq<BlockRef>,
}

/// The record of one commit: its place in the sequence, the digest of the
/// commit before it, its time, its leader and the blocks it commits, in order.
#[derive(Debug)]
pub struct Commit {
    pub index: CommitIndex,
    pub previous_digest: CommitDigest,
    pub timestamp_ms: BlockTimestampMs,
    pub leader: BlockRef,
    pub blocks: Vec<BlockRef>,
}

impl View for Commit {
    type V = CommitView;

    open spec fn view(&self) -> CommitView {
        CommitView {
            index: self.index,
            previous_digest: self.previous_digest,
            timestamp_ms: self.timestamp_ms,
            leader: self.leader,
            blocks: self.blocks@,
        }
    }
}

/// Length in bytes of an encoded block reference.
pub const ENCODED_REF_LEN: usize = 40;

/// Length in bytes of an encoded commit without its blocks.
pub const ENCODED_HEADER_LEN: usize = 92;

/// A block reference in bytes: round, author, digest.
pub open spec fn encode_ref(r: BlockRef) -> Seq<u8> {
    spec_u32_to_le_bytes(r.round) + spec_u32_to_le_bytes(r.author.0) + r.digest.0@
}

/// Block references in bytes, one after the other.
pub open spec fn encode_refs(refs: Seq<BlockRef>) -> Seq<u8>
    decreases refs.len(),
{
    if refs.len() == 0 {
        Seq::empty()
    } else {
        encode_refs(refs.drop_last()) + encode_ref(refs.last())
    }
}

/// A commit in bytes: index, previous digest, timestamp, leader, number of
/// blocks, blocks. Integers are little-endian.
pub open spec fn encode_commit(c: CommitView) -> Seq<u8> {
    spec_u32_to_le_bytes(c.index) + c.previous_digest.0@ + spec_u64_to_le_bytes(c.timestamp_ms)
        + encode_ref(c.leader) + spec_u64_to_le_bytes(c.blocks.len() as u64) + encode_refs(
        c.blocks,
    )
}

/// An encoded reference is forty bytes long, and each part stands at its place.
pub proof fn lemma_encode_ref_layout(r: BlockRef)
    ensures
        encode_ref(r).len() == 40,
        encode_ref(r).subrange(0, 4) == spec_u32_to_le_bytes(r.round),
        encode_ref(r).subrange(4, 8) == spec_u32_to_le_bytes(r.author.0),
        encode_ref(r).subrange(8, 40) == r.digest.0@,
{
    lemma_auto_spec_u32_to_from_le_bytes();
    assert(encode_ref(r).subrange(0, 4) =~= spec_u32_to_le_bytes(r.round));
    assert(encode_ref(r).subrange(4, 8) =~= spec_u32_to_le_bytes(r.author.0));
    assert(encode_ref(r).subrange(8, 40) =~= r.digest.0@);
}

/// Two references with the same encoding are the same reference.
pub proof fn lemma_encode_ref_injective(a: BlockRef, b: BlockRef)
    requires
        encode_ref(a) == encode_ref(b),
    ensures
        a == b,
{
    lemma_encode_ref_layout(a);
    lemma_encode_ref_layout(b);
    lemma_auto_spec_u32_to_from_le_bytes();
    assert(a.round == spec_u32_from_le_bytes(spec_u32_to_le_bytes(a.round)));
    assert(b.round == spec_u32_from_le_bytes(spec_u32_to_le_bytes(b.round)));
    assert(a.author.0 == spec_u32_from_le_bytes(spec_u32_to_le_bytes(a.author.0)));
    assert(b.author.0 == spec_u32_from_le_bytes(spec_u32_to_le_bytes(b.author.0)));
    assert(a.digest.0 =~= b.digest.0);
}

/// The encoding of a list of references is forty bytes per reference, and
/// the reference at `i` stands at byte `40 * i`.
pub proof fn lemma_encode_refs_layout(refs: Seq<BlockRef>)
    ensures
        encode_refs(refs).len() == 40 * refs.len(),
        forall|i: int|
            0 <= i < refs.len() ==> #[trigger] encode_refs(refs).subrange(40 * i, 40 * i + 40)
                == encode_ref(refs[i]),
    decreases refs.len(),
{
    if refs.len() > 0 {
        let head = refs.drop_last();
        lemma_encode_refs_layout(head);
        lemma_encode_ref_layout(refs.last());
        assert forall|i: int| 0 <= i < refs.len() implies #[trigger] encode_refs(refs).subrange(
            40 * i,
            40 * i + 40,
        ) == encode_ref(refs[i]) by {
            if i < refs.len() - 1 {
                assert(encode_refs(refs).subrange(40 * i, 40 * i + 40) =~= encode_refs(
                    head,
                ).subrange(40 * i, 40 * i + 40));
                assert(head[i] == refs[i]);
            } else {
                assert(encode_refs(refs).subrange(40 * i, 40 * i + 40) =~= encode_ref(
                    refs.last(),
                ));
            }
        }
    }
}

/// Two lists of references with the same encoding are the same list.
pub proof fn lemma_encode_refs_injective(a: Seq<BlockRef>, b: Seq<BlockRef>)
    requires
        encode_refs(a) == encode_refs(b),
    ensures
        a == b,
{
    lemma_encode_refs_layout(a);
    lemma_encode_refs_layout(b);
    assert(a.len() == b.len());
    assert forall|i: int| 0 <= i < a.len() implies a[i] == b[i] by {
        assert(encode_refs(a).subrange(40 * i, 40 * i + 40) == encode_ref(a[i]));
        assert(encode_refs(b).subrange(40 * i, 40 * i + 40) == encode_ref(b[i]));
        lemma_encode_ref_injective(a[i], b[i]);
    }
    assert(a =~= b);
}

/// An encoded commit is its header and forty bytes per block, and each part
/// stands at its place.
pub proof fn lemma_encode_commit_layout(c: CommitView)
    ensures
        encode_commit(c).len() == 92 + 40 * c.blocks.len(),
        encode_commit(c).subrange(0, 4) == spec_u32_to_le_bytes(c.index),
        encode_commit(c).subrange(4, 36) == c.previous_digest.0@,
        encode_commit(c).subrange(36, 44) == spec_u64_to_le_bytes(c.timestamp_ms),
        encode_commit(c).subrange(44, 84) == encode_ref(c.leader),
        encode_commit(c).subrange(84, 92) == spec_u64_to_le_bytes(c.blocks.len() as u64),
        encode_commit(c).subrange(92, encode_commit(c).len() as int) == encode_refs(c.blocks),
{
    lemma_auto_spec_u32_to_from_le_bytes();
    lemma_auto_spec_u64_to_from_le_bytes();
    lemma_encode_ref_layout(c.leader);
    lemma_encode_refs_layout(c.blocks);
    let e = encode_commit(c);
    assert(e.subrange(0, 4) =~= spec_u32_to_le_bytes(c.index));
    assert(e.subrange(4, 36) =~= c.previous_digest.0@);
    assert(e.subrange(36, 44) =~= spec_u64_to_le_bytes(c.timestamp_ms));
    assert(e.subrange(44, 84) =~= encode_ref(c.leader));
    assert(e.subrange(84, 92) =~= spec_u64_to_le_bytes(c.blocks.len() as u64));
    assert(e.subrange(92, e.len() as int) =~= encode_refs(c.blocks));
}

/// Two commits with the same encoding are the same commit: index, previous
/// digest, timestamp, leader and blocks can be read back from the bytes.
pub proof fn lemma_encode_commit_injective(a: CommitView, b: CommitView)
    requires
        encode_commit(a) == encode_commit(b),
    ensures
        a == b,
{
    lemma_encode_commit_layout(a);
    lemma_encode_commit_layout(b);
    lemma_auto_spec_u32_to_from_le_bytes();
    lemma_auto_spec_u64_to_from_le_bytes();
    assert(a.index == spec_u32_from_le_bytes(spec_u32_to_le_bytes(a.index)));
    assert(b.index == spec_u32_from_le_bytes(spec_u32_to_le_bytes(b.index)));
    assert(a.timestamp_ms == spec_u64_from_le_bytes(spec_u64_to_le_bytes(a.timestamp_ms)));
    assert(b.timestamp_ms == spec_u64_from_le_bytes(spec_u64_to_le_bytes(b.timestamp_ms)));
    assert(a.previous_digest.0 =~= b.previous_digest.0);
    lemma_encode_ref_injective(a.leader, b.leader);
    lemma_encode_refs_injective(a.blocks, b.blocks);
}


/// Appends the encoding of `r` to `out`.
fn write_ref(out: &mut Vec<u8>, r: &BlockRef)
    ensures
        final(out)@ == old(out)@ + encode_ref(*r),
{
    let ghost before = out@;
    let mut round = u32_to_le_bytes(r.round);
    let mut author = u32_to_le_bytes(r.author.0);
    out.append(&mut round);
    out.append(&mut author);
    let mut i: usize = 0;
    while i < 32
        invariant
            i <= 32,
            out@ == before + spec_u32_to_le_bytes(r.round) + spec_u32_to_le_bytes(r.author.0)
                + r.digest.0@.take(i as int),
        decreases 32 - i,
    {
        out.push(r.digest.0[i]);
        assert(r.digest.0@.take(i as int).push(r.digest.0@[i as int]) =~= r.digest.0@.take(
            i + 1,
        ));
        assert(out@ =~= before + spec_u32_to_le_bytes(r.round) + spec_u32_to_le_bytes(r.author.0)
            + r.digest.0@.take(i + 1));
        i += 1;
    }
    assert(r.digest.0@.take(32) =~= r.digest.0@);
    assert(out@ =~= before + encode_ref(*r));
}

/// Reads the thirty-two bytes that start at `at`.
fn read_digest(bytes: &[u8], at: usize) -> (digest: [u8; 32])
    requires
        at + 32 <= bytes@.len(),
    ensures
        digest@ == bytes@.subrange(at as int, at + 32),
{
    let len = bytes.len();
    let mut digest = [0u8; 32];
    let mut i: usize = 0;
    while i < 32
        invariant
            i <= 32,
            at + 32 <= bytes@.len(),
            len == bytes@.len(),
            forall|k: int| 0 <= k < i ==> digest@[k] == bytes@[at + k],
        decreases 32 - i,
    {
        digest[i] = bytes[at + i];
        i += 1;
    }
    assert(digest@ =~= bytes@.subrange(at as int, at + 32));
    digest
}

/// Reads the block reference whose encoding starts at `at`.
fn read_ref(bytes: &[u8], at: usize) -> (r: BlockRef)
    requires
        at + 40 <= bytes@.len(),
    ensures
        encode_ref(r) == bytes@.subrange(at as int, at + 40),
{
    let len = bytes.len();
    assert(at + 40 <= len);
    let round = u32_from_le_bytes(slice_subrange(bytes, at, at + 4));
    let author = u32_from_le_bytes(slice_subrange(bytes, at + 4, at + 8));
    let digest = read_digest(bytes, at + 8);
    let r = BlockRef { round, author: AuthorityIndex(author), digest: BlockDigest(digest) };
    proof {
        lemma_auto_spec_u32_to_from_le_bytes();
        assert(encode_ref(r) =~= bytes@.subrange(at as int, at + 40));
    }
    r
}

impl Commit {
    pub fn new(
        index: CommitIndex,
        previous_digest: CommitDigest,
        timestamp_ms: BlockTimestampMs,
        leader: BlockRef,
        blocks: Vec<BlockRef>,
    ) -> (r: Self)
        ensures
            r@ == (CommitView { index, previous_digest, timestamp_ms, leader, blocks: blocks@ }),
    {
        Commit { index, previous_digest, timestamp_ms, leader, blocks }
    }

    /// The commit in its durable byte form.
    pub fn serialize(&self) -> (bytes: Vec<u8>)
        ensures
            bytes@ == encode_commit(self@),
    {
        let mut out: Vec<u8> = Vec::new();
        let mut index = u32_to_le_bytes(self.index);
        out.append(&mut index);
        let mut i: usize = 0;
        while i < 32
            invariant
                i <= 32,
                out@ == spec_u32_to_le_bytes(self.index) + self.previous_digest.0@.take(i as int),
            decreases 32 - i,
        {
            out.push(self.previous_digest.0[i]);
            assert(self.previous_digest.0@.take(i as int).push(self.previous_digest.0@[i as int])
                =~= self.previous_digest.0@.take(i + 1));
            assert(out@ =~= spec_u32_to_le_bytes(self.index) + self.previous_digest.0@.take(
                i + 1,
            ));
            i += 1;
        }
        assert(self.previous_digest.0@.take(32) =~= self.previous_digest.0@);
        let mut timestamp = u64_to_le_bytes(self.timestamp_ms);
        out.append(&mut timestamp);
        write_ref(&mut out, &self.leader);
        let mut count = u64_to_le_bytes(self.blocks.len() as u64);
        out.append(&mut count);
        let ghost header = out@;
        assert(header =~= spec_u32_to_le_bytes(self.index) + self.previous_digest.0@
            + spec_u64_to_le_bytes(self.timestamp_ms) + encode_ref(self.leader)
            + spec_u64_to_le_bytes(self.blocks@.len() as u64));
        let mut k: usize = 0;
        while k < self.blocks.len()
            invariant
                k <= self.blocks@.len(),
                out@ == header + encode_refs(self.blocks@.take(k as int)),
            decreases self.blocks@.len() - k,
        {
            write_ref(&mut out, &self.blocks[k]);
            proof {
                let next = self.blocks@.take(k + 1);
                assert(next.drop_last() =~= self.blocks@.take(k as int));
                assert(next.last() == self.blocks@[k as int]);
                assert(out@ =~= header + encode_refs(next));
            }
            k += 1;
        }
        assert(self.blocks@.take(self.blocks@.len() as int) =~= self.blocks@);
        assert(out@ =~= encode_commit(self@));
        out
    }

    /// Reads a commit back from its byte form: `None` where `bytes` is the
    /// byte form of no commit, otherwise the one commit that serializes to
    /// `bytes`.
    pub fn parse(bytes: &[u8]) -> (r: Option<Commit>)
        ensures
            r matches Some(commit) ==> encode_commit(commit@) == bytes@,
            forall|c: CommitView|
                c.blocks.len() <= u64::MAX && #[trigger] encode_commit(c) == bytes@ ==> r.is_some()
                    && r.unwrap()@ == c,
    {
        let len = bytes.len();
        if len < ENCODED_HEADER_LEN {
            proof {
                assert forall|c: CommitView| #[trigger] encode_commit(c) == bytes@ implies false by {
                    lemma_encode_commit_layout(c);
                }
            }
            return None;
        }
        let index = u32_from_le_bytes(slice_subrange(bytes, 0, 4));
        let previous_digest = CommitDigest(read_digest(bytes, 4));
        let timestamp_ms = u64_from_le_bytes(slice_subrange(bytes, 36, 44));
        let leader = read_ref(bytes, 44);
        let count = u64_from_le_bytes(slice_subrange(bytes, 84, 92));
        let body = len - ENCODED_HEADER_LEN;
        if body % ENCODED_REF_LEN != 0 || (body / ENCODED_REF_LEN) as u64 != count {
            proof {
                assert forall|c: CommitView|
                    c.blocks.len() <= u64::MAX && #[trigger] encode_commit(c)
                        == bytes@ implies false by {
                    lemma_encode_commit_layout(c);
                    lemma_auto_spec_u64_to_from_le_bytes();
                    assert(count == spec_u64_from_le_bytes(
                        spec_u64_to_le_bytes(c.blocks.len() as u64),
                    ));
                    assert(body == 40 * c.blocks.len());
                }
            }
            return None;
        }
        let n = body / ENCODED_REF_LEN;
        let mut blocks: Vec<BlockRef> = Vec::new();
        let mut k: usize = 0;
        while k < n
            invariant
                len == bytes@.len(),
                len == 92 + 40 * n,
                k <= n,
                blocks@.len() == k,
                encode_refs(blocks@) == bytes@.subrange(92, 92 + 40 * k),
            decreases n - k,
        {
            let r = read_ref(bytes, ENCODED_HEADER_LEN + ENCODED_REF_LEN * k);
            let ghost before = blocks@;
            blocks.push(r);
            proof {
                assert(blocks@.drop_last() =~= before);
                assert(bytes@.subrange(92, 92 + 40 * (k + 1)) =~= bytes@.subrange(92, 92 + 40 * k)
                    + bytes@.subrange(92 + 40 * k, 92 + 40 * k + 40));
            }
            k += 1;
        }
        let commit = Commit { index, previous_digest, timestamp_ms, leader, blocks };
        proof {
            lemma_auto_spec_u32_to_from_le_bytes();
            lemma_auto_spec_u64_to_from_le_bytes();
            assert(encode_commit(commit@) =~= bytes@.subrange(0, 4) + bytes@.subrange(4, 36)
                + bytes@.subrange(36, 44) + bytes@.subrange(44, 84) + bytes@.subrange(84, 92)
                + bytes@.subrange(92, len as int));
            assert(encode_commit(commit@) =~= bytes@);
            assert forall|c: CommitView| #[trigger] encode_commit(c) == bytes@ implies commit@
                == c by {
                lemma_encode_commit_injective(commit@, c);
            }
        }
        Some(commit)
    }
}

/// What a trusted commit is, as a mathematical value.
pub struct TrustedCommitView {
    pub commit: CommitView,
    pub digest: CommitDigest,
    pub serialized: Seq<u8>,
}

/// A commit made here, or read from this authority's own storage, together
/// with the byte form that its digest was taken from.
#[derive(Debug)]
pub struct TrustedCommit {
    pub commit: Commit,
    pub digest: CommitDigest,
    pub serialized: Vec<u8>,
}

impl View for TrustedCommit {
    type V = TrustedCommitView;

    open spec fn view(&self) -> TrustedCommitView {
        TrustedCommitView {
            commit: self.commit@,
            digest: self.digest,
            serialized: self.serialized@,
        }
    }
}

impl TrustedCommitView {
    /// The bytes are the byte form of the commit, and the digest is their hash.
    pub open spec fn wf(self) -> bool {
        &&& self.serialized == encode_commit(self.commit)
        &&& self.digest.0@ == blake2b_256(self.serialized)
    }
}

impl Clone for TrustedCommit {
    fn clone(&self) -> (r: Self)
        ensures
            r@ == self@,
    {
        let mut blocks: Vec<BlockRef> = Vec::new();
        let mut i: usize = 0;
        while i < self.commit.blocks.len()
            invariant
                i <= self.commit.blocks@.len(),
                blocks@ == self.commit.blocks@.take(i as int),
            decreases self.commit.blocks@.len() - i,
        {
            blocks.push(self.commit.blocks[i]);
            assert(self.commit.blocks@.take(i as int).push(self.commit.blocks@[i as int])
                =~= self.commit.blocks@.take(i + 1));
            i += 1;
        }
        assert(self.commit.blocks@.take(self.commit.blocks@.len() as int)
            =~= self.commit.blocks@);
        let mut serialized: Vec<u8> = Vec::new();
        let mut j: usize = 0;
        while j < self.serialized.len()
            invariant
                j <= self.serialized@.len(),
                serialized@ == self.serialized@.take(j as int),
            decreases self.serialized@.len() - j,
        {
            serialized.push(self.serialized[j]);
            assert(self.serialized@.take(j as int).push(self.serialized@[j as int])
                =~= self.serialized@.take(j + 1));
            j += 1;
        }
        assert(self.serialized@.take(self.serialized@.len() as int) =~= self.serialized@);
        TrustedCommit {
            commit: Commit {
                index: self.commit.index,
                previous_digest: self.commit.previous_digest,
                timestamp_ms: self.commit.timestamp_ms,
                leader: self.commit.leader,
                blocks,
            },
            digest: self.digest,
            serialized,
        }
    }
}

impl TrustedCommit {
    /// Takes `commit` with its byte form on trust, and hashes the bytes for the digest.
    pub fn new_trusted(commit: Commit, serialized: Vec<u8>) -> (r: Self)
        ensures
            r@.commit == commit@,
            r@.serialized == serialized@,
            r@.digest.0@ == blake2b_256(serialized@),
            serialized@ == encode_commit(commit@) ==> r@.wf(),
    {
        let digest = CommitDigest(hash_bytes(&serialized));
        TrustedCommit { commit, digest, serialized }
    }

    /// Builds the commit from its parts, serializes it and takes it on trust.
    pub fn new_for_test(
        index: CommitIndex,
        previous_digest: CommitDigest,
        timestamp_ms: BlockTimestampMs,
        leader: BlockRef,
        blocks: Vec<BlockRef>,
    ) -> (r: Self)
        ensures
            r@.commit == (CommitView {
                index,
                previous_digest,
                timestamp_ms,
                leader,
                blocks: blocks@,
            }),
            r@.wf(),
    {
        let commit = Commit::new(index, previous_digest, timestamp_ms, leader, blocks);
        let serialized = commit.serialize();
        Self::new_trusted(commit, serialized)
    }

    pub fn index(&self) -> (r: CommitIndex)
        ensures
            r == self@.commit.index,
    {
        self.commit.index
    }

    pub fn previous_digest(&self) -> (r: CommitDigest)
        ensures
            r == self@.commit.previous_digest,
    {
        self.commit.previous_digest
    }

    pub fn timestamp_ms(&self) -> (r: BlockTimestampMs)
        ensures
            r == self@.commit.timestamp_ms,
    {
        self.commit.timestamp_ms
    }

    pub fn leader(&self) -> (r: BlockRef)
        ensures
            r == self@.commit.leader,
    {
        self.commit.leader
    }

    pub fn blocks(&self) -> (r: &Vec<BlockRef>)
        ensures
            r@ == self@.commit.blocks,
    {
        &self.commit.blocks
    }

    pub fn digest(&self) -> (r: CommitDigest)
        ensures
            r == self@.digest,
    {
        self.digest
    }

    pub fn serialized(&self) -> (r: &Vec<u8>)
        ensures
            r@ == self@.serialized,
    {
        &self.serialized
    }
}

/// The serialized form of a well-formed trusted commit, parsed again, gives
/// back its index, previous digest, timestamp, leader and blocks.
pub proof fn lemma_serialized_form_round_trips(trusted: TrustedCommitView, parsed: CommitView)
    requires
        trusted.wf(),
        encode_commit(parsed) == trusted.serialized,
    ensures
        parsed == trusted.commit,
{
    lemma_encode_commit_injective(parsed, trusted.commit);
}


/// The keys by which the blocks of a sub-DAG are ordered: round, then author.
pub open spec fn block_keys(blocks: Seq<VerifiedBlock>) -> Seq<SortKey> {
    Seq::new(blocks.len(), |i: int| (blocks[i].round as u64, blocks[i].author.0 as u64))
}

/// The keys by which blocks are ordered, read from their views.
pub open spec fn view_keys(views: Seq<BlockView>) -> Seq<SortKey> {
    Seq::new(views.len(), |i: int| (views[i].round as u64, views[i].author.0 as u64))
}

/// The blocks in order of round, and within a round in order of author;
/// blocks of one round and author keep their order.
pub open spec fn arranged(views: Seq<BlockView>) -> Seq<BlockView> {
    let order = stable_order(view_keys(views));
    Seq::new(views.len(), |i: int| views[order[i] as int])
}

/// Each view stands before every view of a later round, and before every
/// view of the same round by an author of a higher index.
pub open spec fn views_are_sorted(views: Seq<BlockView>) -> bool {
    forall|i: int, j: int|
        0 <= i < j < views.len() ==> {
            let a = #[trigger] views[i];
            let b = #[trigger] views[j];
            a.round < b.round || (a.round == b.round && a.author.0 <= b.author.0)
        }
}

/// Putting blocks in order adds none and drops none: the result is in order
/// of round and author, and holds each block of `views` at one place, the
/// place that the stable order of the keys gives it.
pub proof fn lemma_arranged_is_sorted_permutation(views: Seq<BlockView>)
    requires
        views.len() <= usize::MAX,
    ensures
        arranged(views).len() == views.len(),
        views_are_sorted(arranged(views)),
        lists_all(stable_order(view_keys(views)), views.len() as int),
        is_ordered(view_keys(views), stable_order(view_keys(views))),
        forall|i: int|
            0 <= i < views.len() ==> #[trigger] arranged(views)[i] == views[stable_order(
                view_keys(views),
            )[i] as int],
{
    let keys = view_keys(views);
    let order = stable_order(keys);
    lemma_stable_order_sorted(keys, keys.len());
    assert forall|i: int, j: int| 0 <= i < j < arranged(views).len() implies ({
        let a = #[trigger] arranged(views)[i];
        let b = #[trigger] arranged(views)[j];
        a.round < b.round || (a.round == b.round && a.author.0 <= b.author.0)
    }) by {
        assert(stands_before(keys, order[i] as int, order[j] as int));
    }
}

/// Each block stands before every block of a later round, and before every
/// block of the same round by an author of a higher index.
pub open spec fn is_sorted_by_round_and_author(blocks: Seq<VerifiedBlock>) -> bool {
    forall|i: int, j: int|
        0 <= i < j < blocks.len() ==> {
            let a = #[trigger] blocks[i];
            let b = #[trigger] blocks[j];
            a.round < b.round || (a.round == b.round && a.author.0 <= b.author.0)
        }
}

/// `after` holds the blocks of `before` in the stable order of their keys.
pub open spec fn is_stable_arrangement(
    before: Seq<VerifiedBlock>,
    after: Seq<VerifiedBlock>,
) -> bool {
    let order = stable_order(block_keys(before));
    &&& after.len() == before.len()
    &&& order.len() == before.len()
    &&& forall|i: int|
        0 <= i < after.len() ==> 0 <= #[trigger] order[i] < before.len() && after[i]@
            == before[order[i] as int]@
}

/// A stable arrangement is sorted, and holds the blocks that were arranged
/// and no other.
pub proof fn lemma_stable_arrangement(before: Seq<VerifiedBlock>, after: Seq<VerifiedBlock>)
    requires
        before.len() <= usize::MAX,
        is_stable_arrangement(before, after),
    ensures
        is_sorted_by_round_and_author(after),
        forall|i: int|
            0 <= i < before.len() ==> exists|j: int|
                0 <= j < after.len() && (#[trigger] after[j])@ == (#[trigger] before[i])@,
        forall|j: int|
            0 <= j < after.len() ==> exists|i: int|
                0 <= i < before.len() && (#[trigger] after[j])@ == (#[trigger] before[i])@,
{
    let keys = block_keys(before);
    let order = stable_order(keys);
    lemma_stable_order_sorted(keys, keys.len());
    assert forall|i: int, j: int| 0 <= i < j < after.len() implies ({
        let a = #[trigger] after[i];
        let b = #[trigger] after[j];
        a.round < b.round || (a.round == b.round && a.author.0 <= b.author.0)
    }) by {
        assert(stands_before(keys, order[i] as int, order[j] as int));
        assert(after[i]@ == before[order[i] as int]@);
        assert(after[j]@ == before[order[j] as int]@);
    }
    assert forall|i: int| 0 <= i < before.len() implies exists|j: int|
        0 <= j < after.len() && (#[trigger] after[j])@ == (#[trigger] before[i])@ by {
        assert(order.contains(i as usize));
        let j = choose|j: int| 0 <= j < order.len() && order[j] == i as usize;
        assert(after[j]@ == before[i]@);
    }
    assert forall|j: int| 0 <= j < after.len() implies exists|i: int|
        0 <= i < before.len() && (#[trigger] after[j])@ == (#[trigger] before[i])@ by {
        assert(after[j]@ == before[order[j] as int]@);
    }
}

/// The blocks that one leader commits, with the time and index of the commit.
#[derive(Clone, Debug)]
pub struct CommittedSubDag {
    /// Reference of the leader block.
    pub leader: BlockRef,
    /// The committed blocks.
    pub blocks: Vec<VerifiedBlock>,
    /// The later of the leader's time and the time of the commit before.
    pub timestamp_ms: BlockTimestampMs,
    /// Index of the commit.
    pub commit_index: CommitIndex,
}

impl CommittedSubDag {
    pub fn new(
        leader: BlockRef,
        blocks: Vec<VerifiedBlock>,
        timestamp_ms: BlockTimestampMs,
        commit_index: CommitIndex,
    ) -> (r: Self)
        ensures
            r.leader == leader,
            r.blocks == blocks,
            r.timestamp_ms == timestamp_ms,
            r.commit_index == commit_index,
    {
        CommittedSubDag { leader, blocks, timestamp_ms, commit_index }
    }

    /// Puts the blocks in order of round, and within a round in order of
    /// author. Blocks of one round and author keep their order.
    pub fn sort(&mut self)
        ensures
            block_views(final(self).blocks@) == arranged(block_views(old(self).blocks@)),
            is_stable_arrangement(old(self).blocks@, final(self).blocks@),
            is_sorted_by_round_and_author(final(self).blocks@),
            final(self).leader == old(self).leader,
            final(self).timestamp_ms == old(self).timestamp_ms,
            final(self).commit_index == old(self).commit_index,
    {
        let n = self.blocks.len();
        let mut keys: Vec<SortKey> = Vec::new();
        let mut i: usize = 0;
        while i < n
            invariant
                n == self.blocks@.len(),
                i <= n,
                keys@.len() == i,
                forall|k: int|
                    0 <= k < i ==> keys@[k] == (
                        self.blocks@[k].round as u64,
                        self.blocks@[k].author.0 as u64,
                    ),
            decreases n - i,
        {
            keys.push((self.blocks[i].round as u64, self.blocks[i].author.0 as u64));
            i += 1;
        }
        assert(keys@ =~= block_keys(self.blocks@));
        let order = sort_positions(&keys);
        let mut sorted: Vec<VerifiedBlock> = Vec::new();
        let mut j: usize = 0;
        while j < n
            invariant
                n == self.blocks@.len(),
                order@.len() == n,
                forall|k: int| 0 <= k < n ==> (#[trigger] order@[k]) < n,
                j <= n,
                sorted@.len() == j,
                forall|k: int| 0 <= k < j ==> (#[trigger] sorted@[k])@ == self.blocks@[order@[k] as int]@,
            decreases n - j,
        {
            sorted.push(self.blocks[order[j]].clone());
            j += 1;
        }
        proof {
            assert(is_stable_arrangement(self.blocks@, sorted@));
            lemma_stable_arrangement(self.blocks@, sorted@);
            assert(view_keys(block_views(self.blocks@)) =~= block_keys(self.blocks@));
            assert(block_views(sorted@) =~= arranged(block_views(self.blocks@)));
        }
        self.blocks = sorted;
    }
}

} // verus!
