//! Turns committed leaders into a linear sequence of commits.

use crate::block::{block_refs, block_views, BlockRef, BlockView, VerifiedBlock};
use crate::commit::{
    arranged, block_keys, encode_commit, is_sorted_by_round_and_author, is_stable_arrangement,
    lemma_arranged_is_sorted_permutation, lemma_serialized_form_round_trips,
    lemma_stable_arrangement, view_keys, views_are_sorted, Commit, CommitView, CommittedSubDag,
    TrustedCommit, TrustedCommitView,
};
use crate::dag_state::{
    commit_views, holds_block, holds_ref, is_causally_closed, is_pending, lemma_raise_floors,
    pending_ancestors_held, raise_floors, refs_are_unique, DagState,
};
use crate::ordering::{lemma_stable_order_sorted, lists_all, stable_order, stands_before};
use crate::types::{BlockTimestampMs, CommitIndex, Round};
use vstd::prelude::*;

verus! {

/// `blocks` is what committing the leader collects: the leader first, then
/// each accepted block that is still pending and is an ancestor of a block
/// collected before it, each once, until no collected block has a pending
/// ancestor that was not collected.
pub open spec fn is_collected(
    store: Seq<VerifiedBlock>,
    floors: Seq<Round>,
    leader: BlockView,
    blocks: Seq<VerifiedBlock>,
) -> bool {
    &&& blocks.len() > 0
    &&& blocks[0]@ == leader
    &&& refs_are_unique(blocks)
    &&& forall|i: int|
        0 < i < blocks.len() ==> {
            &&& is_pending(floors, (#[trigger] blocks[i])@.reference())
            &&& holds_block(store, blocks[i]@)
            &&& has_parent_before(blocks, i)
        }
    &&& forall|i: int|
        0 <= i < blocks.len() ==> pending_ancestors_held(blocks, floors, (#[trigger] blocks[i])@)
}

/// Some block that stands before position `i` names the block at `i` as an ancestor.
pub open spec fn has_parent_before(blocks: Seq<VerifiedBlock>, i: int) -> bool {
    exists|j: int|
        0 <= j < i && (#[trigger] blocks[j])@.ancestors.contains(blocks[i]@.reference())
}

/// Some block of `blocks` names `r` as an ancestor.
pub open spec fn has_parent_in(blocks: Seq<VerifiedBlock>, r: BlockRef) -> bool {
    exists|j: int| 0 <= j < blocks.len() && (#[trigger] blocks[j])@.ancestors.contains(r)
}

/// Where a collection stands: the blocks collected so far, the references
/// seen so far, and the blocks that wait to be visited, the next one last.
pub struct Collection {
    pub collected: Seq<BlockView>,
    pub seen: Seq<BlockRef>,
    pub waiting: Seq<BlockView>,
}

/// Among the first `k` of `ancestors`, those that are pending and were
/// neither seen nor named earlier among them, in order.
pub open spec fn wanted_ancestors(
    floors: Seq<Round>,
    seen: Seq<BlockRef>,
    ancestors: Seq<BlockRef>,
    k: int,
) -> Seq<BlockRef>
    decreases k,
{
    if k <= 0 {
        Seq::empty()
    } else {
        let before = wanted_ancestors(floors, seen, ancestors, k - 1);
        let ancestor = ancestors[k - 1];
        if is_pending(floors, ancestor) && !seen.contains(ancestor) && !before.contains(ancestor) {
            before.push(ancestor)
        } else {
            before
        }
    }
}

/// The accepted block that is known under `r`.
pub open spec fn block_known_as(store: Seq<BlockView>, r: BlockRef) -> BlockView {
    store[choose|i: int| 0 <= i < store.len() && (#[trigger] store[i]).reference() == r]
}

/// The accepted blocks that are known under `refs`, position by position.
pub open spec fn blocks_known_as(store: Seq<BlockView>, refs: Seq<BlockRef>) -> Seq<BlockView> {
    Seq::new(refs.len(), |i: int| block_known_as(store, refs[i]))
}

/// One visit: the block that waited last is collected, and those of its
/// ancestors that are pending and were not seen now wait behind the rest, the
/// first of them to be visited last.
pub open spec fn visit(store: Seq<BlockView>, floors: Seq<Round>, state: Collection) -> Collection {
    let block = state.waiting.last();
    let wanted = wanted_ancestors(floors, state.seen, block.ancestors, block.ancestors.len() as int);
    Collection {
        collected: state.collected.push(block),
        seen: state.seen + wanted,
        waiting: state.waiting.drop_last() + blocks_known_as(store, wanted),
    }
}

/// What is collected when blocks are visited until none waits, or `fuel` runs out.
pub open spec fn visit_all(
    store: Seq<BlockView>,
    floors: Seq<Round>,
    state: Collection,
    fuel: nat,
) -> Seq<BlockView>
    decreases fuel,
{
    if fuel == 0 || state.waiting.len() == 0 {
        state.collected
    } else {
        visit_all(store, floors, visit(store, floors, state), (fuel - 1) as nat)
    }
}

/// The blocks that committing `leader` collects, in the order of their
/// visits: the leader is visited first, and no more visits are made than
/// there are accepted blocks and the leader.
pub open spec fn collected_for(
    store: Seq<BlockView>,
    floors: Seq<Round>,
    leader: BlockView,
) -> Seq<BlockView> {
    visit_all(
        store,
        floors,
        Collection {
            collected: Seq::empty(),
            seen: seq![leader.reference()],
            waiting: seq![leader],
        },
        store.len() + 1,
    )
}

/// Among accepted blocks of which no two share a reference, a block is the
/// one known under its reference.
proof fn lemma_block_known_as(store: Seq<VerifiedBlock>, block: BlockView)
    requires
        refs_are_unique(store),
        holds_block(store, block),
    ensures
        block_known_as(block_views(store), block.reference()) == block,
{
    let views = block_views(store);
    let at = choose|at: int| 0 <= at < store.len() && (#[trigger] store[at])@ == block;
    assert(views[at].reference() == block.reference());
    let chosen = choose|i: int|
        0 <= i < views.len() && (#[trigger] views[i]).reference() == block.reference();
    assert(store[chosen]@.reference() == store[at]@.reference());
    if chosen < at {
        assert(store[chosen]@.reference() != store[at]@.reference());
    } else if at < chosen {
        assert(store[at]@.reference() != store[chosen]@.reference());
    }
}

/// Among the first `n` blocks of `store`, how many are not named by `seen`.
pub open spec fn unseen_count(store: Seq<VerifiedBlock>, seen: Seq<BlockRef>, n: int) -> nat
    decreases n,
{
    if n <= 0 {
        0
    } else {
        unseen_count(store, seen, n - 1) + if seen.contains(store[n - 1]@.reference()) {
            0nat
        } else {
            1nat
        }
    }
}

/// Naming one more block leaves no more blocks unnamed, and one fewer where
/// the block is in the store and was not named before.
proof fn lemma_unseen_count_drops(
    store: Seq<VerifiedBlock>,
    seen: Seq<BlockRef>,
    r: BlockRef,
    n: int,
)
    requires
        0 <= n <= store.len(),
    ensures
        unseen_count(store, seen.push(r), n) <= unseen_count(store, seen, n),
        !seen.contains(r) && (exists|p: int| 0 <= p < n && (#[trigger] store[p])@.reference() == r)
            ==> unseen_count(store, seen.push(r), n) < unseen_count(store, seen, n),
    decreases n,
{
    if n > 0 {
        lemma_unseen_count_drops(store, seen, r, n - 1);
        let last = store[n - 1]@.reference();
        if seen.contains(last) {
            let at = choose|at: int| 0 <= at < seen.len() && seen[at] == last;
            assert(seen.push(r)[at] == last);
        }
        if last == r {
            assert(seen.push(r)[seen.len() as int] == r);
        }
        if !seen.contains(r) && (exists|p: int|
            0 <= p < n && (#[trigger] store[p])@.reference() == r) {
            let p = choose|p: int| 0 <= p < n && (#[trigger] store[p])@.reference() == r;
            if p < n - 1 {
                assert(store[p]@.reference() == r);
            }
        }
    }
}

/// No more blocks are unnamed than there are blocks.
proof fn lemma_unseen_count_bound(store: Seq<VerifiedBlock>, seen: Seq<BlockRef>, n: int)
    requires
        0 <= n <= store.len(),
    ensures
        unseen_count(store, seen, n) <= n,
    decreases n,
{
    if n > 0 {
        lemma_unseen_count_bound(store, seen, n - 1);
    }
}

/// Whether `refs` names `r`.
fn names(refs: &Vec<BlockRef>, r: &BlockRef) -> (found: bool)
    ensures
        found == refs@.contains(*r),
{
    let mut i: usize = 0;
    while i < refs.len()
        invariant
            i <= refs@.len(),
            forall|k: int| 0 <= k < i ==> refs@[k] != *r,
        decreases refs@.len() - i,
    {
        if refs[i] == *r {
            return true;
        }
        i += 1;
    }
    false
}

/// Expands committed leaders into sub-DAGs and records them as commits.
pub struct Linearizer {
    /// The blocks to collect from, and the commit progress.
    pub dag_state: DagState,
}

impl Linearizer {
    pub fn new(dag_state: DagState) -> (r: Self)
        ensures
            r.dag_state == dag_state,
    {
        Linearizer { dag_state }
    }

    /// Collects the sub-DAG of `leader_block`: the leader and every accepted
    /// block that the leader reaches through ancestors that lie above the
    /// last committed round of their author. No block is collected twice.
    pub fn collect_sub_dag(
        &self,
        leader_block: VerifiedBlock,
        last_commit_index: CommitIndex,
        last_commit_timestamp_ms: BlockTimestampMs,
        last_committed_rounds: Vec<Round>,
    ) -> (sub_dag: CommittedSubDag)
        requires
            self.dag_state.wf(),
            leader_block@.within(self.dag_state.spec_size()),
            last_committed_rounds@.len() == self.dag_state.spec_size(),
            pending_ancestors_held(self.dag_state.blocks@, last_committed_rounds@, leader_block@),
            is_causally_closed(self.dag_state.blocks@, last_committed_rounds@),
            last_commit_index < u32::MAX,
        ensures
            sub_dag.leader == leader_block@.reference(),
            sub_dag.timestamp_ms == if leader_block@.timestamp_ms >= last_commit_timestamp_ms {
                leader_block@.timestamp_ms
            } else {
                last_commit_timestamp_ms
            },
            sub_dag.commit_index == last_commit_index + 1,
            block_views(sub_dag.blocks@) == collected_for(
                block_views(self.dag_state.blocks@),
                last_committed_rounds@,
                leader_block@,
            ),
            is_collected(
                self.dag_state.blocks@,
                last_committed_rounds@,
                leader_block@,
                sub_dag.blocks@,
            ),
    {
        let ghost store = self.dag_state.blocks@;
        let ghost accepted = block_views(self.dag_state.blocks@);
        let ghost floors = last_committed_rounds@;
        let ghost leader = leader_block@;
        let ghost size = self.dag_state.spec_size();

        let timestamp_ms = if leader_block.timestamp_ms() >= last_commit_timestamp_ms {
            leader_block.timestamp_ms()
        } else {
            last_commit_timestamp_ms
        };
        let leader_block_ref = leader_block.reference();

        let mut to_commit: Vec<VerifiedBlock> = Vec::new();
        let mut committed: Vec<BlockRef> = Vec::new();
        committed.push(leader_block_ref);
        let mut buffer: Vec<VerifiedBlock> = Vec::new();
        buffer.push(leader_block);
        proof {
            assert(committed@ =~= seq![leader.reference()]);
            assert(block_views(buffer@) =~= seq![leader]);
            assert(block_views(to_commit@) =~= Seq::<BlockView>::empty());
            lemma_unseen_count_bound(store, committed@, store.len() as int);
            assert(committed@[0] == leader.reference());
            assert(buffer@[0]@ == leader);
            assert forall|r: BlockRef| #[trigger] committed@.contains(r) implies holds_ref(
                buffer@,
                r,
            ) by {
                assert(buffer@[0]@.reference() == r);
            }
        }

        while buffer.len() > 0
            invariant
                self.dag_state.wf(),
                store == self.dag_state.blocks@,
                floors == last_committed_rounds@,
                size == self.dag_state.spec_size(),
                floors.len() == size,
                leader.within(size),
                is_causally_closed(store, floors),
                pending_ancestors_held(store, floors, leader),
                // The visits made so far are the first visits of the collection.
                accepted == block_views(store),
                to_commit@.len() + buffer@.len() == committed@.len(),
                committed@.len() + unseen_count(store, committed@, store.len() as int)
                    <= store.len() + 1,
                collected_for(accepted, floors, leader) == visit_all(
                    accepted,
                    floors,
                    Collection {
                        collected: block_views(to_commit@),
                        seen: committed@,
                        waiting: block_views(buffer@),
                    },
                    (store.len() + 1 - to_commit@.len()) as nat,
                ),
                // What was seen is what waits or was collected, each once.
                committed@.no_duplicates(),
                refs_are_unique(to_commit@),
                refs_are_unique(buffer@),
                forall|i: int, k: int|
                    0 <= i < to_commit@.len() && 0 <= k < buffer@.len() ==> (#[trigger] to_commit@[i])@.reference()
                        != (#[trigger] buffer@[k])@.reference(),
                forall|i: int|
                    0 <= i < to_commit@.len() ==> committed@.contains(
                        (#[trigger] to_commit@[i])@.reference(),
                    ),
                forall|k: int|
                    0 <= k < buffer@.len() ==> committed@.contains(
                        (#[trigger] buffer@[k])@.reference(),
                    ),
                forall|r: BlockRef| #[trigger]
                    committed@.contains(r) ==> holds_ref(to_commit@, r) || holds_ref(buffer@, r),
                // Every block but the leader is pending and accepted.
                forall|i: int|
                    0 <= i < to_commit@.len() ==> (#[trigger] to_commit@[i])@ == leader || (
                    is_pending(floors, to_commit@[i]@.reference()) && holds_block(
                        store,
                        to_commit@[i]@,
                    )),
                forall|k: int|
                    0 <= k < buffer@.len() ==> (#[trigger] buffer@[k])@ == leader || (is_pending(
                        floors,
                        buffer@[k]@.reference(),
                    ) && holds_block(store, buffer@[k]@)),
                // The leader comes first.
                to_commit@.len() == 0 ==> buffer@.len() == 1 && buffer@[0]@ == leader,
                to_commit@.len() > 0 ==> to_commit@[0]@ == leader,
                // Every block but the first was reached from a block collected before it.
                forall|i: int| 0 < i < to_commit@.len() ==> #[trigger] has_parent_before(to_commit@, i),
                forall|k: int|
                    0 <= k < buffer@.len() && to_commit@.len() > 0 ==> has_parent_in(
                        to_commit@,
                        (#[trigger] buffer@[k])@.reference(),
                    ),
                // No pending ancestor of a collected block is left unseen.
                forall|i: int, a: int|
                    0 <= i < to_commit@.len() && 0 <= a < to_commit@[i]@.ancestors.len()
                        && is_pending(floors, #[trigger] to_commit@[i]@.ancestors[a])
                        ==> committed@.contains(to_commit@[i]@.ancestors[a]),
            decreases unseen_count(store, committed@, store.len() as int), buffer@.len(),
        {
            let ghost collected = to_commit@;
            let ghost seen = committed@;
            let ghost waiting = buffer@;
            let x = buffer.pop().unwrap();
            let ghost rest = buffer@;
            assert(rest =~= waiting.drop_last());
            assert(x == waiting[waiting.len() - 1]);
            assert(x@.within(size)) by {
                if x@ != leader {
                    let at = choose|at: int| 0 <= at < store.len() && (#[trigger] store[at])@ == x@;
                    assert(store[at]@.within(size));
                }
            }
            assert(pending_ancestors_held(store, floors, x@)) by {
                if x@ != leader {
                    let at = choose|at: int| 0 <= at < store.len() && (#[trigger] store[at])@ == x@;
                    assert(pending_ancestors_held(store, floors, store[at]@));
                }
            }

            // The ancestors that are pending and were not seen before.
            let mut wanted: Vec<BlockRef> = Vec::new();
            let mut a: usize = 0;
            while a < x.ancestors().len()
                invariant
                    a <= x@.ancestors.len(),
                    x@.within(size),
                    floors == last_committed_rounds@,
                    floors.len() == size,
                    pending_ancestors_held(store, floors, x@),
                    committed@ == seen + wanted@,
                    wanted@ == wanted_ancestors(floors, seen, x@.ancestors, a as int),
                    committed@.no_duplicates(),
                    forall|w: int|
                        0 <= w < wanted@.len() ==> {
                            &&& is_pending(floors, #[trigger] wanted@[w])
                            &&& holds_ref(store, wanted@[w])
                            &&& x@.ancestors.contains(wanted@[w])
                        },
                    forall|k: int|
                        0 <= k < a && is_pending(floors, #[trigger] x@.ancestors[k])
                            ==> committed@.contains(x@.ancestors[k]),
                    unseen_count(store, committed@, store.len() as int) + wanted@.len()
                        <= unseen_count(store, seen, store.len() as int),
                decreases x@.ancestors.len() - a,
            {
                let ancestor = x.ancestors()[a];
                proof {
                    // Seen before this visit, or wanted earlier in it.
                    if committed@.contains(ancestor) {
                        let at = choose|at: int|
                            0 <= at < committed@.len() && committed@[at] == ancestor;
                        if at < seen.len() {
                            assert(seen[at] == ancestor);
                        } else {
                            assert(wanted@[at - seen.len()] == ancestor);
                        }
                    }
                    if seen.contains(ancestor) {
                        let at = choose|at: int| 0 <= at < seen.len() && seen[at] == ancestor;
                        assert(committed@[at] == ancestor);
                    }
                    if wanted@.contains(ancestor) {
                        let at = choose|at: int| 0 <= at < wanted@.len() && wanted@[at] == ancestor;
                        assert(committed@[seen.len() + at] == ancestor);
                    }
                }
                if last_committed_rounds[ancestor.author.value()] < ancestor.round && !names(
                    &committed,
                    &ancestor,
                ) {
                    proof {
                        lemma_unseen_count_drops(store, committed@, ancestor, store.len() as int);
                        assert(holds_ref(store, ancestor));
                    }
                    let ghost before = committed@;
                    committed.push(ancestor);
                    wanted.push(ancestor);
                    proof {
                        assert(committed@ =~= seen + wanted@);
                        assert forall|k: int|
                            0 <= k < a && is_pending(floors, #[trigger] x@.ancestors[k]) implies committed@.contains(
                            x@.ancestors[k],
                        ) by {
                            let at = choose|at: int|
                                0 <= at < before.len() && before[at] == x@.ancestors[k];
                            assert(committed@[at] == x@.ancestors[k]);
                        }
                        assert(committed@[before.len() as int] == ancestor);
                    }
                }
                a += 1;
            }

            let found = self.dag_state.get_blocks(wanted.as_slice());
            let mut f: usize = 0;
            while f < found.len()
                invariant
                    f <= found@.len(),
                    found@.len() == wanted@.len(),
                    forall|w: int| 0 <= w < wanted@.len() ==> holds_ref(store, #[trigger] wanted@[w]),
                    store == self.dag_state.blocks@,
                    forall|i: int|
                        0 <= i < found@.len() ==> match #[trigger] found@[i] {
                            Some(block) => block@.reference() == wanted@[i] && holds_block(
                                store,
                                block@,
                            ),
                            None => !holds_ref(store, wanted@[i]),
                        },
                    buffer@.len() == rest.len() + f,
                    forall|k: int| 0 <= k < rest.len() ==> buffer@[k] == rest[k],
                    forall|k: int|
                        0 <= k < f ==> (#[trigger] buffer@[rest.len() + k])@.reference()
                            == wanted@[k] && holds_block(store, buffer@[rest.len() + k]@),
                decreases found@.len() - f,
            {
                match &found[f] {
                    Some(block) => {
                        buffer.push(block.clone());
                    },
                    None => {
                        // Every pending ancestor of an accepted block was accepted.
                        assert(holds_ref(store, wanted@[f as int]));
                        assert(false);
                    },
                }
                f += 1;
            }
            to_commit.push(x);

            proof {
                let before = Collection {
                    collected: block_views(collected),
                    seen,
                    waiting: block_views(waiting),
                };
                let after = Collection {
                    collected: block_views(to_commit@),
                    seen: committed@,
                    waiting: block_views(buffer@),
                };
                let next = visit(accepted, floors, before);
                assert(block_views(waiting).last() == x@);
                assert(after.collected =~= next.collected);
                assert(after.seen == next.seen);
                assert(after.waiting =~= next.waiting) by {
                    let kept = block_views(waiting).drop_last();
                    let added = blocks_known_as(accepted, wanted@);
                    assert(kept =~= block_views(rest));
                    assert(next.waiting == kept + added);
                    assert(after.waiting.len() == kept.len() + added.len());
                    assert forall|k: int| 0 <= k < after.waiting.len() implies after.waiting[k] == (
                    kept + added)[k] by {
                        if k < rest.len() {
                            assert(buffer@[k] == rest[k]);
                        } else {
                            let w = k - rest.len();
                            assert(buffer@[rest.len() + w]@.reference() == wanted@[w]);
                            lemma_block_known_as(store, buffer@[rest.len() + w]@);
                        }
                    }
                }
                assert(after == next);
            }
            proof {
                let n = collected.len() as int;
                assert(to_commit@.len() == n + 1);
                assert(forall|i: int| 0 <= i < n ==> to_commit@[i] == collected[i]);
                assert(to_commit@[n] == x);
                assert(forall|k: int| 0 <= k < rest.len() ==> rest[k] == waiting[k]);
                // x was seen
                assert(seen.contains(x@.reference()));
                // membership moves along with the appended entries
                assert forall|r: BlockRef| seen.contains(r) implies committed@.contains(r) by {
                    let at = choose|at: int| 0 <= at < seen.len() && seen[at] == r;
                    assert(committed@[at] == r);
                }
                assert forall|w: int| 0 <= w < wanted@.len() implies !seen.contains(
                    #[trigger] wanted@[w],
                ) by {
                    if seen.contains(wanted@[w]) {
                        let at = choose|at: int| 0 <= at < seen.len() && seen[at] == wanted@[w];
                        assert(committed@[at] == wanted@[w]);
                        assert(committed@[seen.len() + w] == wanted@[w]);
                    }
                }
                assert forall|w1: int, w2: int| 0 <= w1 < w2 < wanted@.len() implies wanted@[w1]
                    != wanted@[w2] by {
                    assert(committed@[seen.len() + w1] == wanted@[w1]);
                    assert(committed@[seen.len() + w2] == wanted@[w2]);
                }
                assert forall|k: int| 0 <= k < buffer@.len() implies committed@.contains(
                    (#[trigger] buffer@[k])@.reference(),
                ) by {
                    if k < rest.len() {
                        assert(buffer@[k] == waiting[k]);
                        assert(seen.contains(waiting[k]@.reference()));
                    } else {
                        let w = k - rest.len();
                        assert(buffer@[rest.len() + w]@.reference() == wanted@[w]);
                        assert(committed@[seen.len() + w] == wanted@[w]);
                    }
                }
                assert forall|i: int| 0 <= i < to_commit@.len() implies committed@.contains(
                    (#[trigger] to_commit@[i])@.reference(),
                ) by {
                    if i < n {
                        assert(seen.contains(collected[i]@.reference()));
                    }
                }
                assert(refs_are_unique(to_commit@)) by {
                    assert forall|i: int, j: int| 0 <= i < j < to_commit@.len() implies (
                    #[trigger] to_commit@[i])@.reference() != (#[trigger] to_commit@[j])@.reference() by {
                        if j == n {
                            assert(collected[i]@.reference() != waiting[waiting.len() - 1]@.reference());
                        }
                    }
                }
                assert(refs_are_unique(buffer@)) by {
                    assert forall|i: int, j: int| 0 <= i < j < buffer@.len() implies (
                    #[trigger] buffer@[i])@.reference() != (#[trigger] buffer@[j])@.reference() by {
                        if j < rest.len() {
                            assert(waiting[i]@.reference() != waiting[j]@.reference());
                        } else if i < rest.len() {
                            let w = j - rest.len();
                            assert(buffer@[rest.len() + w]@.reference() == wanted@[w]);
                            assert(seen.contains(waiting[i]@.reference()));
                        } else {
                            let w1 = i - rest.len();
                            let w2 = j - rest.len();
                            assert(buffer@[rest.len() + w1]@.reference() == wanted@[w1]);
                            assert(buffer@[rest.len() + w2]@.reference() == wanted@[w2]);
                        }
                    }
                }
                assert forall|i: int, k: int|
                    0 <= i < to_commit@.len() && 0 <= k < buffer@.len() implies (
                #[trigger] to_commit@[i])@.reference() != (#[trigger] buffer@[k])@.reference() by {
                    if k < rest.len() {
                        if i < n {
                            assert(collected[i]@.reference() != waiting[k]@.reference());
                        } else {
                            assert(waiting[k]@.reference() != waiting[waiting.len()
                                - 1]@.reference());
                        }
                    } else {
                        let w = k - rest.len();
                        assert(buffer@[rest.len() + w]@.reference() == wanted@[w]);
                        if i < n {
                            assert(seen.contains(collected[i]@.reference()));
                        }
                    }
                }
                assert forall|r: BlockRef| #[trigger] committed@.contains(r) implies holds_ref(
                    to_commit@,
                    r,
                ) || holds_ref(buffer@, r) by {
                    let at = choose|at: int| 0 <= at < committed@.len() && committed@[at] == r;
                    if at < seen.len() {
                        assert(seen[at] == r);
                        assert(seen.contains(r));
                        if holds_ref(collected, r) {
                            let i = choose|i: int|
                                0 <= i < collected.len() && (#[trigger] collected[i])@.reference()
                                    == r;
                            assert(to_commit@[i]@.reference() == r);
                        } else {
                            let k = choose|k: int|
                                0 <= k < waiting.len() && (#[trigger] waiting[k])@.reference()
                                    == r;
                            if k < rest.len() {
                                assert(buffer@[k]@.reference() == r);
                            } else {
                                assert(to_commit@[n]@.reference() == r);
                            }
                        }
                    } else {
                        let w = at - seen.len();
                        assert(wanted@[w] == r);
                        assert(buffer@[rest.len() + w]@.reference() == r);
                    }
                }
                assert forall|k: int| 0 <= k < buffer@.len() implies (#[trigger] buffer@[k])@
                    == leader || (is_pending(floors, buffer@[k]@.reference()) && holds_block(
                    store,
                    buffer@[k]@,
                )) by {
                    if k < rest.len() {
                        assert(buffer@[k] == waiting[k]);
                    } else {
                        let w = k - rest.len();
                        assert(buffer@[rest.len() + w]@.reference() == wanted@[w]);
                    }
                }
                assert forall|i: int| 0 <= i < to_commit@.len() implies (#[trigger] to_commit@[i])@
                    == leader || (is_pending(floors, to_commit@[i]@.reference()) && holds_block(
                    store,
                    to_commit@[i]@,
                )) by {
                    if i < n {
                        assert(to_commit@[i] == collected[i]);
                    }
                }
                if n == 0 {
                    assert(x@ == leader);
                    assert(rest.len() == 0);
                }
                assert forall|i: int| 0 < i < to_commit@.len() implies #[trigger] has_parent_before(
                    to_commit@,
                    i,
                ) by {
                    if i < n {
                        assert(has_parent_before(collected, i));
                        let j = choose|j: int|
                            0 <= j < i && (#[trigger] collected[j])@.ancestors.contains(
                                collected[i]@.reference(),
                            );
                        assert(to_commit@[j]@.ancestors.contains(to_commit@[i]@.reference()));
                    } else {
                        assert(has_parent_in(collected, waiting[waiting.len() - 1]@.reference()));
                        let j = choose|j: int|
                            0 <= j < collected.len() && (#[trigger] collected[j])@.ancestors.contains(
                                x@.reference(),
                            );
                        assert(to_commit@[j]@.ancestors.contains(to_commit@[i]@.reference()));
                    }
                }
                assert forall|k: int|
                    0 <= k < buffer@.len() && to_commit@.len() > 0 implies has_parent_in(
                    to_commit@,
                    (#[trigger] buffer@[k])@.reference(),
                ) by {
                    if k < rest.len() {
                        assert(buffer@[k] == waiting[k]);
                        assert(n > 0);
                        assert(has_parent_in(collected, waiting[k]@.reference()));
                        let j = choose|j: int|
                            0 <= j < collected.len() && (#[trigger] collected[j])@.ancestors.contains(
                                waiting[k]@.reference(),
                            );
                        assert(to_commit@[j]@.ancestors.contains(buffer@[k]@.reference()));
                    } else {
                        let w = k - rest.len();
                        assert(buffer@[rest.len() + w]@.reference() == wanted@[w]);
                        assert(to_commit@[n]@.ancestors.contains(wanted@[w]));
                    }
                }
                assert forall|i: int, a: int|
                    0 <= i < to_commit@.len() && 0 <= a < to_commit@[i]@.ancestors.len()
                        && is_pending(
                        floors,
                        #[trigger] to_commit@[i]@.ancestors[a],
                    ) implies committed@.contains(to_commit@[i]@.ancestors[a]) by {
                    if i < n {
                        assert(to_commit@[i] == collected[i]);
                        assert(seen.contains(collected[i]@.ancestors[a]));
                    }
                }
            }
        }
        proof {
            assert(block_views(buffer@).len() == 0);
            assert(to_commit@.len() > 0);
            assert forall|i: int| 0 < i < to_commit@.len() implies {
                &&& is_pending(floors, (#[trigger] to_commit@[i])@.reference())
                &&& holds_block(store, to_commit@[i]@)
                &&& has_parent_before(to_commit@, i)
            } by {
                assert(to_commit@[0]@.reference() != to_commit@[i]@.reference());
            }
            assert forall|i: int| 0 <= i < to_commit@.len() implies pending_ancestors_held(
                to_commit@,
                floors,
                (#[trigger] to_commit@[i])@,
            ) by {
                assert forall|a: int|
                    0 <= a < to_commit@[i]@.ancestors.len() && is_pending(
                        floors,
                        #[trigger] to_commit@[i]@.ancestors[a],
                    ) implies holds_ref(to_commit@, to_commit@[i]@.ancestors[a]) by {
                    assert(committed@.contains(to_commit@[i]@.ancestors[a]));
                    assert(!holds_ref(buffer@, to_commit@[i]@.ancestors[a]));
                }
            }
        }
        CommittedSubDag::new(leader_block_ref, to_commit, timestamp_ms, last_commit_index + 1)
    }
}


/// `blocks` is what committing the leader yields: what is collected for the
/// leader, put in order of round and author.
pub open spec fn is_linearized(
    store: Seq<VerifiedBlock>,
    floors: Seq<Round>,
    leader: BlockView,
    blocks: Seq<VerifiedBlock>,
) -> bool {
    &&& is_sorted_by_round_and_author(blocks)
    &&& exists|collected: Seq<VerifiedBlock>|
        #![trigger is_collected(store, floors, leader, collected)]
        is_collected(store, floors, leader, collected) && is_stable_arrangement(collected, blocks)
}

/// The blocks that committing `leader` yields: those collected for it, in
/// order of round and author.
pub open spec fn linearized_for(
    store: Seq<BlockView>,
    floors: Seq<Round>,
    leader: BlockView,
) -> Seq<BlockView> {
    arranged(collected_for(store, floors, leader))
}

/// The commit stands for the sub-DAG and follows the commit of digest `previous_digest`.
pub open spec fn records(
    commit: TrustedCommitView,
    sub_dag: &CommittedSubDag,
    previous_digest: Seq<u8>,
) -> bool {
    &&& commit.wf()
    &&& commit.commit.index == sub_dag.commit_index
    &&& commit.commit.previous_digest.0@ == previous_digest
    &&& commit.commit.timestamp_ms == sub_dag.timestamp_ms
    &&& commit.commit.leader == sub_dag.leader
    &&& commit.commit.blocks == block_refs(sub_dag.blocks@)
}

/// The later of two times.
pub open spec fn later(a: BlockTimestampMs, b: BlockTimestampMs) -> BlockTimestampMs {
    if a >= b {
        a
    } else {
        b
    }
}

/// What is linearized for a leader holds the leader, holds beside it only
/// accepted blocks that were pending, and holds no block twice.
pub proof fn lemma_linearized(
    store: Seq<VerifiedBlock>,
    floors: Seq<Round>,
    leader: BlockView,
    blocks: Seq<VerifiedBlock>,
)
    requires
        is_linearized(store, floors, leader, blocks),
        blocks.len() <= usize::MAX,
    ensures
        holds_block(blocks, leader),
        refs_are_unique(blocks),
        forall|b: int|
            0 <= b < blocks.len() ==> (#[trigger] blocks[b])@ == leader || (is_pending(
                floors,
                blocks[b]@.reference(),
            ) && holds_block(store, blocks[b]@)),
{
    let collected = choose|collected: Seq<VerifiedBlock>|
        #![trigger is_collected(store, floors, leader, collected)]
        is_collected(store, floors, leader, collected) && is_stable_arrangement(collected, blocks);
    lemma_stable_arrangement(collected, blocks);
    let keys = block_keys(collected);
    let order = stable_order(keys);
    lemma_stable_order_sorted(keys, keys.len());
    assert(holds_block(blocks, leader)) by {
        let j = choose|j: int| 0 <= j < blocks.len() && (#[trigger] blocks[j])@ == (
        #[trigger] collected[0])@;
        assert(blocks[j]@ == leader);
    }
    assert forall|a: int, b: int| 0 <= a < b < blocks.len() implies (#[trigger] blocks[a])@.reference()
        != (#[trigger] blocks[b])@.reference() by {
        assert(stands_before(keys, order[a] as int, order[b] as int));
        assert(blocks[a]@ == collected[order[a] as int]@);
        assert(blocks[b]@ == collected[order[b] as int]@);
        let x = order[a] as int;
        let y = order[b] as int;
        if x < y {
            assert(collected[x]@.reference() != collected[y]@.reference());
        } else {
            assert(collected[y]@.reference() != collected[x]@.reference());
        }
    }
    assert forall|b: int| 0 <= b < blocks.len() implies (#[trigger] blocks[b])@ == leader || (
    is_pending(floors, blocks[b]@.reference()) && holds_block(store, blocks[b]@)) by {
        let c = order[b] as int;
        assert(blocks[b]@ == collected[c]@);
        if c > 0 {
            assert(is_pending(floors, collected[c]@.reference()));
        }
    }
}

impl Linearizer {
    /// Commits one leader: reads the commit progress, collects the leader's
    /// sub-DAG, puts it in order, records it as the commit that follows the
    /// last one, and hands the commit to the DAG state.
    pub fn commit_leader(&mut self, leader_block: VerifiedBlock) -> (sub_dag: CommittedSubDag)
        requires
            old(self).dag_state.wf(),
            leader_block@.within(old(self).dag_state.spec_size()),
            pending_ancestors_held(
                old(self).dag_state.blocks@,
                old(self).dag_state.last_committed_rounds@,
                leader_block@,
            ),
            is_causally_closed(
                old(self).dag_state.blocks@,
                old(self).dag_state.last_committed_rounds@,
            ),
            old(self).dag_state.spec_last_commit_index() < u32::MAX,
        ensures
            sub_dag.leader == leader_block@.reference(),
            sub_dag.commit_index == old(self).dag_state.spec_last_commit_index() + 1,
            sub_dag.timestamp_ms == later(
                leader_block@.timestamp_ms,
                old(self).dag_state.spec_last_commit_timestamp_ms(),
            ),
            block_views(sub_dag.blocks@) == linearized_for(
                block_views(old(self).dag_state.blocks@),
                old(self).dag_state.last_committed_rounds@,
                leader_block@,
            ),
            is_linearized(
                old(self).dag_state.blocks@,
                old(self).dag_state.last_committed_rounds@,
                leader_block@,
                sub_dag.blocks@,
            ),
            final(self).dag_state.wf(),
            final(self).dag_state.context == old(self).dag_state.context,
            final(self).dag_state.blocks == old(self).dag_state.blocks,
            final(self).dag_state.flushed_blocks == old(self).dag_state.flushed_blocks,
            final(self).dag_state.persisted_commits == old(self).dag_state.persisted_commits,
            final(self).dag_state.last_committed_rounds@ == raise_floors(
                old(self).dag_state.last_committed_rounds@,
                block_refs(sub_dag.blocks@),
            ),
            final(self).dag_state.last_commit matches Some(last) && records(
                last@,
                &sub_dag,
                old(self).dag_state.spec_last_commit_digest(),
            ) && commit_views(final(self).dag_state.commits_to_write@) == commit_views(
                old(self).dag_state.commits_to_write@,
            ).push(last@),
    {
        let ghost store = self.dag_state.blocks@;
        let ghost floors = self.dag_state.last_committed_rounds@;
        let ghost size = self.dag_state.spec_size();

        // The commit progress as it stands now.
        let last_commit_index = self.dag_state.last_commit_index();
        let last_commit_digest = self.dag_state.last_commit_digest();
        let last_commit_timestamp_ms = self.dag_state.last_commit_timestamp_ms();
        let last_committed_rounds = self.dag_state.last_committed_rounds();

        let mut sub_dag = self.collect_sub_dag(
            leader_block,
            last_commit_index,
            last_commit_timestamp_ms,
            last_committed_rounds,
        );
        let ghost collected = sub_dag.blocks@;
        sub_dag.sort();
        let count = sub_dag.blocks.len();
        proof {
            assert(is_collected(store, floors, leader_block@, collected));
            assert(is_linearized(store, floors, leader_block@, sub_dag.blocks@));
            lemma_linearized(store, floors, leader_block@, sub_dag.blocks@);
        }

        let mut refs: Vec<BlockRef> = Vec::new();
        let mut i: usize = 0;
        while i < sub_dag.blocks.len()
            invariant
                i <= sub_dag.blocks@.len(),
                refs@.len() == i,
                forall|k: int| 0 <= k < i ==> refs@[k] == sub_dag.blocks@[k]@.reference(),
            decreases sub_dag.blocks@.len() - i,
        {
            refs.push(sub_dag.blocks[i].reference());
            i += 1;
        }
        assert(refs@ =~= block_refs(sub_dag.blocks@));
        proof {
            assert forall|k: int| 0 <= k < refs@.len() implies (#[trigger] refs@[k]).author.0
                < size by {
                let block = sub_dag.blocks@[k];
                if block@ != leader_block@ {
                    let at = choose|at: int| 0 <= at < store.len() && (#[trigger] store[at])@ == block@;
                    assert(store[at]@.within(size));
                }
            }
        }
        let commit = Commit::new(
            sub_dag.commit_index,
            last_commit_digest,
            sub_dag.timestamp_ms,
            sub_dag.leader,
            refs,
        );
        let serialized = commit.serialize();
        let commit = TrustedCommit::new_trusted(commit, serialized);

        // The commit waits in the DAG state to be written, and raises the
        // last committed rounds there.
        self.dag_state.add_commit(commit);
        sub_dag
    }
}


/// The last committed rounds at the turn of the leader at position `i`:
/// those at the start, raised by the sub-DAGs of the leaders before it.
pub open spec fn floors_at(floors: Seq<Round>, sub_dags: Seq<CommittedSubDag>, i: int) -> Seq<Round>
    decreases i,
{
    if i <= 0 {
        floors
    } else {
        raise_floors(floors_at(floors, sub_dags, i - 1), block_refs(sub_dags[i - 1].blocks@))
    }
}

/// The time of the commit before the one at position `i`.
pub open spec fn time_before(
    start: BlockTimestampMs,
    sub_dags: Seq<CommittedSubDag>,
    i: int,
) -> BlockTimestampMs {
    if i <= 0 {
        start
    } else {
        sub_dags[i - 1].timestamp_ms
    }
}

/// Each sub-DAG is what committing the leader at its position yields on the
/// state that the leaders before it left: it names that leader, has the next
/// commit index, has the later of the leader's time and the time of the
/// commit before, and holds what is linearized for the leader, in order.
pub open spec fn turns_are_right(
    leaders: Seq<VerifiedBlock>,
    store: Seq<VerifiedBlock>,
    floors: Seq<Round>,
    start_index: CommitIndex,
    start_time: BlockTimestampMs,
    sub_dags: Seq<CommittedSubDag>,
) -> bool {
    forall|k: int|
        0 <= k < sub_dags.len() ==> #[trigger] turn_is_right(
            leaders,
            store,
            floors,
            start_index,
            start_time,
            sub_dags,
            k,
        )
}

/// The sub-DAG at position `k` is what committing the leader at `k` yields
/// on the state that the leaders before it left.
pub open spec fn turn_is_right(
    leaders: Seq<VerifiedBlock>,
    store: Seq<VerifiedBlock>,
    floors: Seq<Round>,
    start_index: CommitIndex,
    start_time: BlockTimestampMs,
    sub_dags: Seq<CommittedSubDag>,
    k: int,
) -> bool {
    let sub_dag = sub_dags[k];
    &&& sub_dag.leader == leaders[k]@.reference()
    &&& sub_dag.commit_index == start_index + k + 1
    &&& turn_time_is_right(leaders, start_time, sub_dags, k)
    &&& turn_blocks_are_right(leaders, store, floors, sub_dags, k)
}

/// The sub-DAG at position `k` has the later of its leader's time and the
/// time of the commit before.
pub open spec fn turn_time_is_right(
    leaders: Seq<VerifiedBlock>,
    start_time: BlockTimestampMs,
    sub_dags: Seq<CommittedSubDag>,
    k: int,
) -> bool {
    sub_dags[k].timestamp_ms == later(
        leaders[k]@.timestamp_ms,
        time_before(start_time, sub_dags, k),
    )
}

/// The sub-DAG at position `k` holds what is linearized for the leader at
/// `k` on the rounds that the sub-DAGs before it left, in order.
pub open spec fn turn_blocks_are_right(
    leaders: Seq<VerifiedBlock>,
    store: Seq<VerifiedBlock>,
    floors: Seq<Round>,
    sub_dags: Seq<CommittedSubDag>,
    k: int,
) -> bool {
    let sub_dag = sub_dags[k];
    &&& block_views(sub_dag.blocks@) == linearized_for(
        block_views(store),
        floors_at(floors, sub_dags, k),
        leaders[k]@,
    )
    &&& is_linearized(store, floors_at(floors, sub_dags, k), leaders[k]@, sub_dag.blocks@)
    &&& is_sorted_by_round_and_author(sub_dag.blocks@)
}

/// The time of each commit is no earlier than the time of any commit before
/// it, nor than `start`.
pub open spec fn times_never_go_back(start: BlockTimestampMs, sub_dags: Seq<CommittedSubDag>) -> bool {
    forall|k: int, m: int|
        0 <= k <= m < sub_dags.len() ==> start <= (#[trigger] sub_dags[k]).timestamp_ms <= (
        #[trigger] sub_dags[m]).timestamp_ms
}

/// Every block of every sub-DAG lies at or below the round in `floors` of its author.
pub open spec fn lies_at_or_below(sub_dags: Seq<CommittedSubDag>, floors: Seq<Round>) -> bool {
    forall|k: int, b: int|
        0 <= k < sub_dags.len() && 0 <= b < sub_dags[k].blocks@.len() ==> {
            let block = (#[trigger] sub_dags[k].blocks@[b])@;
            block.author.0 < floors.len() && block.round <= floors[block.author.0 as int]
        }
}

/// Each commit stands for the sub-DAG at its position and follows the commit
/// before it; the first follows the commit of digest `first_previous`.
pub open spec fn is_commit_chain(
    commits: Seq<TrustedCommitView>,
    sub_dags: Seq<CommittedSubDag>,
    first_previous: Seq<u8>,
) -> bool {
    &&& commits.len() == sub_dags.len()
    &&& forall|k: int|
        0 <= k < commits.len() ==> #[trigger] link_is_right(commits, sub_dags, first_previous, k)
}

/// The commit at position `k` stands for the sub-DAG at `k` and follows the
/// commit before it, or the commit of digest `first_previous` where it is the first.
pub open spec fn link_is_right(
    commits: Seq<TrustedCommitView>,
    sub_dags: Seq<CommittedSubDag>,
    first_previous: Seq<u8>,
    k: int,
) -> bool {
    records(
        commits[k],
        &sub_dags[k],
        if k == 0 {
            first_previous
        } else {
            commits[k - 1].digest.0@
        },
    )
}

/// No block but the leader of a sub-DAG stands in a sub-DAG before it.
pub open spec fn commits_no_block_twice(
    leaders: Seq<VerifiedBlock>,
    sub_dags: Seq<CommittedSubDag>,
) -> bool {
    forall|i: int, j: int, a: int, b: int|
        0 <= i < j < sub_dags.len() && 0 <= a < sub_dags[i].blocks@.len() && 0 <= b
            < sub_dags[j].blocks@.len() && (#[trigger] sub_dags[j].blocks@[b])@ != leaders[j]@
            ==> (#[trigger] sub_dags[i].blocks@[a])@.reference()
            != sub_dags[j].blocks@[b]@.reference()
}

/// The rounds at a turn depend on the sub-DAGs before it alone, keep the
/// number of authorities, and lie no lower than the rounds at the start.
proof fn lemma_floors_at(
    floors: Seq<Round>,
    one: Seq<CommittedSubDag>,
    other: Seq<CommittedSubDag>,
    i: int,
)
    requires
        0 <= i <= one.len(),
        i <= other.len(),
        forall|k: int| 0 <= k < i ==> one[k] == other[k],
    ensures
        floors_at(floors, one, i) == floors_at(floors, other, i),
        floors_at(floors, one, i).len() == floors.len(),
        forall|a: int| 0 <= a < floors.len() ==> floors[a] <= #[trigger] floors_at(floors, one, i)[a],
    decreases i,
{
    if i > 0 {
        lemma_floors_at(floors, one, other, i - 1);
        lemma_raise_floors(floors_at(floors, one, i - 1), block_refs(one[i - 1].blocks@));
    }
}

/// With rounds no lower than before, no more is pending, so what was held stays held.
proof fn lemma_still_held(
    store: Seq<VerifiedBlock>,
    floors: Seq<Round>,
    current: Seq<Round>,
    block: BlockView,
)
    requires
        current.len() == floors.len(),
        forall|a: int| 0 <= a < floors.len() ==> floors[a] <= #[trigger] current[a],
        pending_ancestors_held(store, floors, block),
    ensures
        pending_ancestors_held(store, current, block),
{
    assert forall|k: int|
        0 <= k < block.ancestors.len() && is_pending(
            current,
            #[trigger] block.ancestors[k],
        ) implies holds_ref(store, block.ancestors[k]) by {
        assert(is_pending(floors, block.ancestors[k]));
    }
}

/// With rounds no lower than before, a closed store stays closed.
proof fn lemma_still_closed(store: Seq<VerifiedBlock>, floors: Seq<Round>, current: Seq<Round>)
    requires
        current.len() == floors.len(),
        forall|a: int| 0 <= a < floors.len() ==> floors[a] <= #[trigger] current[a],
        is_causally_closed(store, floors),
    ensures
        is_causally_closed(store, current),
{
    assert forall|s: int| 0 <= s < store.len() implies pending_ancestors_held(
        store,
        current,
        (#[trigger] store[s])@,
    ) by {
        lemma_still_held(store, floors, current, store[s]@);
    }
}

/// One more turn that is right keeps the turns right.
proof fn lemma_turn_added(
    leaders: Seq<VerifiedBlock>,
    store: Seq<VerifiedBlock>,
    floors: Seq<Round>,
    start_index: CommitIndex,
    start_time: BlockTimestampMs,
    done: Seq<CommittedSubDag>,
    fresh: CommittedSubDag,
)
    requires
        turns_are_right(leaders, store, floors, start_index, start_time, done),
        done.len() < leaders.len(),
        fresh.leader == leaders[done.len() as int]@.reference(),
        fresh.commit_index == start_index + done.len() + 1,
        fresh.timestamp_ms == later(
            leaders[done.len() as int]@.timestamp_ms,
            time_before(start_time, done, done.len() as int),
        ),
        block_views(fresh.blocks@) == linearized_for(
            block_views(store),
            floors_at(floors, done, done.len() as int),
            leaders[done.len() as int]@,
        ),
        is_linearized(
            store,
            floors_at(floors, done, done.len() as int),
            leaders[done.len() as int]@,
            fresh.blocks@,
        ),
        is_sorted_by_round_and_author(fresh.blocks@),
    ensures
        turns_are_right(leaders, store, floors, start_index, start_time, done.push(fresh)),
{
    let now = done.push(fresh);
    let i = done.len() as int;
    assert forall|k: int| 0 <= k < now.len() implies #[trigger] turn_is_right(
        leaders,
        store,
        floors,
        start_index,
        start_time,
        now,
        k,
    ) by {
        lemma_floors_at(floors, now, done, k);
        if k < i {
            assert(turn_is_right(leaders, store, floors, start_index, start_time, done, k));
            assert(now[k] == done[k]);
        }
        if k > 0 {
            assert(now[k - 1] == done[k - 1]);
        }
    }
}

/// A commit whose time is the later of some time and the time of the commit
/// before keeps the times from going back.
proof fn lemma_time_added(
    start_time: BlockTimestampMs,
    done: Seq<CommittedSubDag>,
    fresh: CommittedSubDag,
    leader_time: BlockTimestampMs,
)
    requires
        times_never_go_back(start_time, done),
        fresh.timestamp_ms == later(leader_time, time_before(start_time, done, done.len() as int)),
    ensures
        times_never_go_back(start_time, done.push(fresh)),
{
    let now = done.push(fresh);
    let i = done.len() as int;
    assert forall|k: int, m: int| 0 <= k <= m < now.len() implies start_time <= (
    #[trigger] now[k]).timestamp_ms <= (#[trigger] now[m]).timestamp_ms by {
        if m < i {
            assert(now[k] == done[k] && now[m] == done[m]);
        } else if k < i {
            assert(now[k] == done[k]);
            assert(done[k].timestamp_ms <= done[i - 1].timestamp_ms);
        } else {
            if i > 0 {
                assert(start_time <= done[i - 1].timestamp_ms);
            }
        }
    }
}

/// After the rounds are raised by a sub-DAG, that sub-DAG and every one
/// that lay at or below the rounds before lie at or below them.
proof fn lemma_floor_raised(
    store: Seq<VerifiedBlock>,
    size: int,
    done: Seq<CommittedSubDag>,
    fresh: CommittedSubDag,
    leader: BlockView,
    current: Seq<Round>,
)
    requires
        current.len() == size,
        lies_at_or_below(done, current),
        leader.within(size),
        forall|s: int| 0 <= s < store.len() ==> (#[trigger] store[s])@.within(size),
        forall|b: int|
            0 <= b < fresh.blocks@.len() ==> (#[trigger] fresh.blocks@[b])@ == leader
                || holds_block(store, fresh.blocks@[b]@),
    ensures
        lies_at_or_below(done.push(fresh), raise_floors(current, block_refs(fresh.blocks@))),
{
    let now = done.push(fresh);
    let refs = block_refs(fresh.blocks@);
    let raised = raise_floors(current, refs);
    lemma_raise_floors(current, refs);
    assert forall|k: int, b: int| 0 <= k < now.len() && 0 <= b < now[k].blocks@.len() implies {
        let block = (#[trigger] now[k].blocks@[b])@;
        block.author.0 < raised.len() && block.round <= raised[block.author.0 as int]
    } by {
        let block = now[k].blocks@[b]@;
        if k < done.len() {
            assert(now[k] == done[k]);
            let earlier = done[k].blocks@[b]@;
            assert(earlier.round <= current[earlier.author.0 as int]);
        } else {
            assert(fresh.blocks@[b]@ == block);
            if block != leader {
                let at = choose|at: int| 0 <= at < store.len() && (#[trigger] store[at])@ == block;
                assert(store[at]@.within(size));
            }
            assert(refs[b] == block.reference());
        }
    }
}

/// A sub-DAG that holds, beside its leader, only blocks above the rounds
/// that the sub-DAGs before it lie at or below, repeats none of their blocks.
proof fn lemma_no_block_twice_added(
    leaders: Seq<VerifiedBlock>,
    done: Seq<CommittedSubDag>,
    fresh: CommittedSubDag,
    current: Seq<Round>,
)
    requires
        commits_no_block_twice(leaders, done),
        lies_at_or_below(done, current),
        done.len() < leaders.len(),
        forall|b: int|
            0 <= b < fresh.blocks@.len() ==> (#[trigger] fresh.blocks@[b])@
                == leaders[done.len() as int]@ || is_pending(
                current,
                fresh.blocks@[b]@.reference(),
            ),
    ensures
        commits_no_block_twice(leaders, done.push(fresh)),
{
    let now = done.push(fresh);
    let i = done.len() as int;
    assert forall|k: int, j: int, a: int, b: int|
        0 <= k < j < now.len() && 0 <= a < now[k].blocks@.len() && 0 <= b < now[j].blocks@.len()
            && (#[trigger] now[j].blocks@[b])@ != leaders[j]@ implies (
    #[trigger] now[k].blocks@[a])@.reference() != now[j].blocks@[b]@.reference() by {
        assert(now[k] == done[k]);
        if j < i {
            assert(now[j] == done[j]);
        } else {
            let earlier = done[k].blocks@[a]@;
            assert(earlier.round <= current[earlier.author.0 as int]);
            assert(fresh.blocks@[b]@ == now[j].blocks@[b]@);
            assert(is_pending(current, fresh.blocks@[b]@.reference()));
        }
    }
}

/// A commit that stands for one more sub-DAG and follows the last commit
/// of a chain makes the chain one longer.
proof fn lemma_chain_added(
    chain: Seq<TrustedCommitView>,
    done: Seq<CommittedSubDag>,
    start_digest: Seq<u8>,
    last: TrustedCommitView,
    fresh: CommittedSubDag,
)
    requires
        is_commit_chain(chain, done, start_digest),
        records(
            last,
            &fresh,
            if chain.len() == 0 {
                start_digest
            } else {
                chain.last().digest.0@
            },
        ),
    ensures
        is_commit_chain(chain.push(last), done.push(fresh), start_digest),
{
    let longer = chain.push(last);
    let now = done.push(fresh);
    assert forall|k: int| 0 <= k < longer.len() implies #[trigger] link_is_right(
        longer,
        now,
        start_digest,
        k,
    ) by {
        if k < chain.len() {
            assert(link_is_right(chain, done, start_digest, k));
            assert(longer[k] == chain[k]);
            assert(now[k] == done[k]);
            if k > 0 {
                assert(longer[k - 1] == chain[k - 1]);
            }
        } else {
            if k > 0 {
                assert(longer[k - 1] == chain.last());
            }
        }
    }
}

/// Where each commit has the later of its leader's time and the time of the
/// commit before, the time of no commit lies before the time of a commit
/// before it, nor before the time of the last commit at the start.
pub proof fn lemma_times_never_go_back(
    leaders: Seq<VerifiedBlock>,
    start_time: BlockTimestampMs,
    sub_dags: Seq<CommittedSubDag>,
)
    requires
        forall|k: int|
            0 <= k < sub_dags.len() ==> #[trigger] turn_time_is_right(
                leaders,
                start_time,
                sub_dags,
                k,
            ),
    ensures
        times_never_go_back(start_time, sub_dags),
{
    assert forall|k: int, m: int| 0 <= k <= m < sub_dags.len() implies start_time <= (
    #[trigger] sub_dags[k]).timestamp_ms <= (#[trigger] sub_dags[m]).timestamp_ms by {
        lemma_time_chain(leaders, start_time, sub_dags, 0, k);
        lemma_time_chain(leaders, start_time, sub_dags, k, m);
        assert(turn_time_is_right(leaders, start_time, sub_dags, 0));
    }
}

/// The time of a commit is no earlier than the time of a commit before it.
proof fn lemma_time_chain(
    leaders: Seq<VerifiedBlock>,
    start_time: BlockTimestampMs,
    sub_dags: Seq<CommittedSubDag>,
    k: int,
    m: int,
)
    requires
        forall|k: int|
            0 <= k < sub_dags.len() ==> #[trigger] turn_time_is_right(
                leaders,
                start_time,
                sub_dags,
                k,
            ),
        0 <= k <= m < sub_dags.len(),
    ensures
        sub_dags[k].timestamp_ms <= sub_dags[m].timestamp_ms,
    decreases m - k,
{
    if k < m {
        lemma_time_chain(leaders, start_time, sub_dags, k, m - 1);
        assert(turn_time_is_right(leaders, start_time, sub_dags, m));
    }
}

/// A sub-DAG that holds what is linearized for its leader is in order of
/// round and author, and holds the blocks collected for its leader, each at
/// one place: putting them in order adds none and drops none.
pub proof fn lemma_sub_dag_is_sorted(
    leaders: Seq<VerifiedBlock>,
    store: Seq<VerifiedBlock>,
    floors: Seq<Round>,
    sub_dags: Seq<CommittedSubDag>,
    k: int,
)
    requires
        turn_blocks_are_right(leaders, store, floors, sub_dags, k),
        sub_dags[k].blocks@.len() <= usize::MAX,
    ensures
        ({
            let collected = collected_for(
                block_views(store),
                floors_at(floors, sub_dags, k),
                leaders[k]@,
            );
            let blocks = block_views(sub_dags[k].blocks@);
            let order = stable_order(view_keys(collected));
            &&& views_are_sorted(blocks)
            &&& blocks.len() == collected.len()
            &&& lists_all(order, collected.len() as int)
            &&& forall|i: int|
                0 <= i < blocks.len() ==> #[trigger] blocks[i] == collected[order[i] as int]
        }),
{
    let collected = collected_for(block_views(store), floors_at(floors, sub_dags, k), leaders[k]@);
    assert(block_views(sub_dags[k].blocks@) == arranged(collected));
    assert(arranged(collected).len() == collected.len());
    lemma_arranged_is_sorted_permutation(collected);
}

/// Where each sub-DAG holds what is linearized for its leader on the rounds
/// that the sub-DAGs before it left, no block but the leader of a sub-DAG
/// stands in a sub-DAG before it, and every block but the leader lies above
/// the last committed round of its author as it stood at the leader's turn.
pub proof fn lemma_commits_no_block_twice(
    leaders: Seq<VerifiedBlock>,
    store: Seq<VerifiedBlock>,
    floors: Seq<Round>,
    sub_dags: Seq<CommittedSubDag>,
)
    requires
        forall|k: int|
            0 <= k < sub_dags.len() ==> #[trigger] turn_blocks_are_right(
                leaders,
                store,
                floors,
                sub_dags,
                k,
            ),
        sub_dags.len() <= leaders.len(),
        forall|s: int| 0 <= s < store.len() ==> (#[trigger] store[s])@.within(floors.len() as int),
        forall|k: int|
            0 <= k < sub_dags.len() ==> (#[trigger] leaders[k])@.within(floors.len() as int),
        forall|k: int|
            0 <= k < sub_dags.len() ==> (#[trigger] sub_dags[k]).blocks@.len() <= usize::MAX,
    ensures
        commits_no_block_twice(leaders, sub_dags),
        forall|k: int, b: int|
            0 <= k < sub_dags.len() && 0 <= b < sub_dags[k].blocks@.len() ==> (
            #[trigger] sub_dags[k].blocks@[b])@ == leaders[k]@ || is_pending(
                floors_at(floors, sub_dags, k),
                sub_dags[k].blocks@[b]@.reference(),
            ),
{
    lemma_batch_prefix(leaders, store, floors, sub_dags, sub_dags.len() as int);
    assert(sub_dags.take(sub_dags.len() as int) =~= sub_dags);
    assert forall|k: int, b: int|
        0 <= k < sub_dags.len() && 0 <= b < sub_dags[k].blocks@.len() implies (
    #[trigger] sub_dags[k].blocks@[b])@ == leaders[k]@ || is_pending(
        floors_at(floors, sub_dags, k),
        sub_dags[k].blocks@[b]@.reference(),
    ) by {
        assert(turn_blocks_are_right(leaders, store, floors, sub_dags, k));
        lemma_linearized(store, floors_at(floors, sub_dags, k), leaders[k]@, sub_dags[k].blocks@);
    }
}

/// The first `n` sub-DAGs repeat no block, and lie at or below the rounds
/// that they raise the rounds at the start to.
proof fn lemma_batch_prefix(
    leaders: Seq<VerifiedBlock>,
    store: Seq<VerifiedBlock>,
    floors: Seq<Round>,
    sub_dags: Seq<CommittedSubDag>,
    n: int,
)
    requires
        forall|k: int|
            0 <= k < sub_dags.len() ==> #[trigger] turn_blocks_are_right(
                leaders,
                store,
                floors,
                sub_dags,
                k,
            ),
        0 <= n <= sub_dags.len() <= leaders.len(),
        forall|s: int| 0 <= s < store.len() ==> (#[trigger] store[s])@.within(floors.len() as int),
        forall|k: int|
            0 <= k < sub_dags.len() ==> (#[trigger] leaders[k])@.within(floors.len() as int),
        forall|k: int|
            0 <= k < sub_dags.len() ==> (#[trigger] sub_dags[k]).blocks@.len() <= usize::MAX,
    ensures
        commits_no_block_twice(leaders, sub_dags.take(n)),
        lies_at_or_below(sub_dags.take(n), floors_at(floors, sub_dags, n)),
    decreases n,
{
    if n > 0 {
        lemma_batch_prefix(leaders, store, floors, sub_dags, n - 1);
        let done = sub_dags.take(n - 1);
        let fresh = sub_dags[n - 1];
        let current = floors_at(floors, sub_dags, n - 1);
        let leader = leaders[n - 1]@;
        assert(sub_dags.take(n) =~= done.push(fresh));
        lemma_floors_at(floors, sub_dags, sub_dags, n - 1);
        assert(turn_blocks_are_right(leaders, store, floors, sub_dags, n - 1));
        lemma_linearized(store, current, leader, fresh.blocks@);
        lemma_floor_raised(store, floors.len() as int, done, fresh, leader, current);
        lemma_no_block_twice_added(leaders, done, fresh, current);
    }
}

/// Whatever commits stand for sub-DAGs in a chain, the bytes of each, read
/// back as a commit, give the index, the time, the leader and the blocks of
/// its sub-DAG, and the digest of the commit before it.
pub proof fn lemma_chain_round_trips(
    commits: Seq<TrustedCommitView>,
    sub_dags: Seq<CommittedSubDag>,
    first_previous: Seq<u8>,
    k: int,
    parsed: CommitView,
)
    requires
        is_commit_chain(commits, sub_dags, first_previous),
        0 <= k < commits.len(),
        encode_commit(parsed) == commits[k].serialized,
    ensures
        parsed == commits[k].commit,
        parsed.index == sub_dags[k].commit_index,
        parsed.timestamp_ms == sub_dags[k].timestamp_ms,
        parsed.leader == sub_dags[k].leader,
        parsed.blocks == block_refs(sub_dags[k].blocks@),
        parsed.previous_digest.0@ == if k == 0 {
            first_previous
        } else {
            commits[k - 1].digest.0@
        },
{
    assert(link_is_right(commits, sub_dags, first_previous, k));
    lemma_serialized_form_round_trips(commits[k], parsed);
}

impl Linearizer {
    /// Whether `committed_leaders` can be handed to `handle_commit`.
    pub open spec fn spec_can_commit(&self, committed_leaders: Seq<VerifiedBlock>) -> bool {
        &&& self.dag_state.wf()
        &&& forall|i: int|
            0 <= i < committed_leaders.len() ==> (#[trigger] committed_leaders[i])@.within(
                self.dag_state.spec_size(),
            ) && pending_ancestors_held(
                self.dag_state.blocks@,
                self.dag_state.last_committed_rounds@,
                committed_leaders[i]@,
            )
        &&& is_causally_closed(self.dag_state.blocks@, self.dag_state.last_committed_rounds@)
        &&& self.dag_state.spec_last_commit_index() + committed_leaders.len() <= u32::MAX
    }

    /// Whether `committed_leaders` can be handed to `handle_commit`: the
    /// state is well formed, no pending ancestor of a leader or of an
    /// accepted block is missing, and the commit indices do not run out.
    pub fn can_commit(&self, committed_leaders: &Vec<VerifiedBlock>) -> (r: bool)
        ensures
            r == self.spec_can_commit(committed_leaders@),
    {
        if !self.dag_state.is_well_formed() {
            return false;
        }
        if !self.dag_state.is_closed() {
            return false;
        }
        let room = u32::MAX - self.dag_state.last_commit_index();
        if committed_leaders.len() > room as usize {
            return false;
        }
        let mut i: usize = 0;
        while i < committed_leaders.len()
            invariant
                self.dag_state.wf(),
                i <= committed_leaders@.len(),
                forall|k: int|
                    0 <= k < i ==> (#[trigger] committed_leaders@[k])@.within(
                        self.dag_state.spec_size(),
                    ) && pending_ancestors_held(
                        self.dag_state.blocks@,
                        self.dag_state.last_committed_rounds@,
                        committed_leaders@[k]@,
                    ),
            decreases committed_leaders@.len() - i,
        {
            if !self.dag_state.is_within(&committed_leaders[i])
                || !self.dag_state.holds_pending_ancestors(&committed_leaders[i]) {
                return false;
            }
            i += 1;
        }
        true
    }

    /// Commits the leaders in the order given, each on the state that the
    /// one before left, and flushes the DAG state if anything was committed.
    /// Hands out one sub-DAG per leader, in the same order.
    ///
    /// Each sub-DAG is in order of round and author. The times of the
    /// commits never go back. No block but its leader stands in a sub-DAG and
    /// in one before it.
    pub fn handle_commit(&mut self, committed_leaders: Vec<VerifiedBlock>) -> (committed_sub_dags:
        Vec<CommittedSubDag>)
        requires
            old(self).spec_can_commit(committed_leaders@),
        ensures
            committed_sub_dags@.len() == committed_leaders@.len(),
            turns_are_right(
                committed_leaders@,
                old(self).dag_state.blocks@,
                old(self).dag_state.last_committed_rounds@,
                old(self).dag_state.spec_last_commit_index(),
                old(self).dag_state.spec_last_commit_timestamp_ms(),
                committed_sub_dags@,
            ),
            times_never_go_back(
                old(self).dag_state.spec_last_commit_timestamp_ms(),
                committed_sub_dags@,
            ),
            commits_no_block_twice(committed_leaders@, committed_sub_dags@),
            final(self).dag_state.wf(),
            committed_leaders@.len() == 0 ==> final(self).dag_state == old(self).dag_state,
            final(self).dag_state.context == old(self).dag_state.context,
            final(self).dag_state.blocks == old(self).dag_state.blocks,
            final(self).dag_state.last_committed_rounds@ == floors_at(
                old(self).dag_state.last_committed_rounds@,
                committed_sub_dags@,
                committed_sub_dags@.len() as int,
            ),
            final(self).dag_state.spec_last_commit_index() == old(
                self,
            ).dag_state.spec_last_commit_index() + committed_leaders@.len(),
            committed_leaders@.len() > 0 ==> {
                let written = commit_views(final(self).dag_state.persisted_commits@);
                let before = commit_views(old(self).dag_state.persisted_commits@) + commit_views(
                    old(self).dag_state.commits_to_write@,
                );
                &&& final(self).dag_state.commits_to_write@.len() == 0
                &&& final(self).dag_state.flushed_blocks == final(self).dag_state.blocks@.len()
                &&& written.len() == before.len() + committed_leaders@.len()
                &&& written.take(before.len() as int) == before
                &&& is_commit_chain(
                    written.skip(before.len() as int),
                    committed_sub_dags@,
                    old(self).dag_state.spec_last_commit_digest(),
                )
                &&& (final(self).dag_state.last_commit matches Some(last) && last@
                    == written.last())
            },
    {
        let ghost store = self.dag_state.blocks@;
        let ghost floors = self.dag_state.last_committed_rounds@;
        let ghost size = self.dag_state.spec_size();
        let ghost start_index = self.dag_state.spec_last_commit_index();
        let ghost start_time = self.dag_state.spec_last_commit_timestamp_ms();
        let ghost start_digest = self.dag_state.spec_last_commit_digest();
        let ghost waiting = commit_views(self.dag_state.commits_to_write@);
        let ghost chain = Seq::<TrustedCommitView>::empty();

        let n = committed_leaders.len();
        let mut committed_sub_dags: Vec<CommittedSubDag> = Vec::new();
        let mut i: usize = 0;
        assert(commit_views(self.dag_state.commits_to_write@) =~= waiting + chain);
        while i < n
            invariant
                n == committed_leaders@.len(),
                i <= n,
                committed_sub_dags@.len() == i,
                start_index + n <= u32::MAX,
                size == self.dag_state.spec_size(),
                floors.len() == size,
                forall|k: int|
                    0 <= k < committed_leaders@.len() ==> (#[trigger] committed_leaders@[k])@.within(
                        size,
                    ) && pending_ancestors_held(store, floors, committed_leaders@[k]@),
                is_causally_closed(store, floors),
                self.dag_state.wf(),
                self.dag_state.context == old(self).dag_state.context,
                self.dag_state.blocks == old(self).dag_state.blocks,
                store == self.dag_state.blocks@,
                self.dag_state.flushed_blocks == old(self).dag_state.flushed_blocks,
                self.dag_state.persisted_commits == old(self).dag_state.persisted_commits,
                i == 0 ==> self.dag_state == old(self).dag_state,
                self.dag_state.last_committed_rounds@ == floors_at(
                    floors,
                    committed_sub_dags@,
                    i as int,
                ),
                self.dag_state.spec_last_commit_index() == start_index + i,
                self.dag_state.spec_last_commit_timestamp_ms() == time_before(
                    start_time,
                    committed_sub_dags@,
                    i as int,
                ),
                turns_are_right(
                    committed_leaders@,
                    store,
                    floors,
                    start_index,
                    start_time,
                    committed_sub_dags@,
                ),
                times_never_go_back(start_time, committed_sub_dags@),
                lies_at_or_below(committed_sub_dags@, self.dag_state.last_committed_rounds@),
                commits_no_block_twice(committed_leaders@, committed_sub_dags@),
                // The commits made so far wait to be written, behind those that waited before.
                commit_views(self.dag_state.commits_to_write@) == waiting + chain,
                is_commit_chain(chain, committed_sub_dags@, start_digest),
                i == 0 ==> self.dag_state.spec_last_commit_digest() == start_digest,
                i > 0 ==> (self.dag_state.last_commit matches Some(last) && last@ == chain.last()),
            decreases n - i,
        {
            let ghost done = committed_sub_dags@;
            let ghost current = self.dag_state.last_committed_rounds@;
            let leader_block = committed_leaders[i].clone();
            proof {
                lemma_floors_at(floors, done, done, i as int);
                lemma_still_held(store, floors, current, committed_leaders@[i as int]@);
                lemma_still_closed(store, floors, current);
            }
            let sub_dag = self.commit_leader(leader_block);
            let count = sub_dag.blocks.len();
            proof {
                let last = self.dag_state.last_commit.unwrap()@;
                let leader = committed_leaders@[i as int]@;
                lemma_linearized(store, current, leader, sub_dag.blocks@);
                lemma_turn_added(
                    committed_leaders@,
                    store,
                    floors,
                    start_index,
                    start_time,
                    done,
                    sub_dag,
                );
                lemma_time_added(start_time, done, sub_dag, leader.timestamp_ms);
                lemma_floor_raised(store, size, done, sub_dag, leader, current);
                lemma_no_block_twice_added(committed_leaders@, done, sub_dag, current);
                lemma_chain_added(chain, done, start_digest, last, sub_dag);
                lemma_floors_at(floors, done.push(sub_dag), done, i as int);
                assert((waiting + chain).push(last) =~= waiting + chain.push(last));
                chain = chain.push(last);
            }
            committed_sub_dags.push(sub_dag);
            i += 1;
        }

        // Commits are written before anyone is told of them.
        if committed_sub_dags.len() > 0 {
            let ghost before = commit_views(self.dag_state.persisted_commits@);
            self.dag_state.flush();
            proof {
                let written = commit_views(self.dag_state.persisted_commits@);
                let kept = before + waiting;
                assert(written =~= kept + chain);
                assert(written.take(kept.len() as int) =~= kept);
                assert(written.skip(kept.len() as int) =~= chain);
                assert(written.last() == chain.last());
            }
        }
        committed_sub_dags
    }
}

} // verus!
