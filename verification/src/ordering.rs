//! A stable sort of positions by a two-part key.

use vstd::prelude::*;

verus! {

/// A key of two parts, ordered by the first and then by the second.
pub type SortKey = (u64, u64);

/// `a` comes no later than `b`.
pub open spec fn key_le(a: SortKey, b: SortKey) -> bool {
    a.0 < b.0 || (a.0 == b.0 && a.1 <= b.1)
}

/// `a` comes strictly before `b`.
pub open spec fn key_lt(a: SortKey, b: SortKey) -> bool {
    a.0 < b.0 || (a.0 == b.0 && a.1 < b.1)
}

/// Position `i` comes before position `j` in the stable order: its key is
/// smaller, or the keys are equal and `i` stood first.
pub open spec fn stands_before(keys: Seq<SortKey>, i: int, j: int) -> bool {
    key_lt(keys[i], keys[j]) || (keys[i] == keys[j] && i < j)
}

/// `order` lists positions of `keys`, each one before every later one.
pub open spec fn is_ordered(keys: Seq<SortKey>, order: Seq<usize>) -> bool {
    &&& forall|k: int| 0 <= k < order.len() ==> (#[trigger] order[k]) < keys.len()
    &&& forall|a: int, b: int|
        0 <= a < b < order.len() ==> stands_before(keys, #[trigger] order[a] as int, #[trigger] order[b] as int)
}

/// `order` lists each of the first `n` positions, and only those.
pub open spec fn lists_all(order: Seq<usize>, n: int) -> bool {
    &&& order.len() == n
    &&& forall|k: int| 0 <= k < order.len() ==> (#[trigger] order[k]) < n
    &&& forall|p: usize| p < n ==> #[trigger] order.contains(p)
}

/// `order` with position `x` put behind the last entry that does not come after it.
pub open spec fn insert_ordered(keys: Seq<SortKey>, order: Seq<usize>, x: usize) -> Seq<usize>
    decreases order.len(),
{
    if order.len() == 0 {
        seq![x]
    } else if key_le(keys[order.last() as int], keys[x as int]) {
        order.push(x)
    } else {
        insert_ordered(keys, order.drop_last(), x).push(order.last())
    }
}

/// The first `n` positions of `keys` in stable ascending order of their keys.
pub open spec fn stable_order_of(keys: Seq<SortKey>, n: nat) -> Seq<usize>
    decreases n,
{
    if n == 0 {
        Seq::empty()
    } else {
        insert_ordered(keys, stable_order_of(keys, (n - 1) as nat), (n - 1) as usize)
    }
}

/// All positions of `keys` in stable ascending order of their keys.
pub open spec fn stable_order(keys: Seq<SortKey>) -> Seq<usize> {
    stable_order_of(keys, keys.len())
}

/// Scanning for the insertion point from the back may stop at any entry that
/// the scan has passed.
proof fn lemma_insert_split(keys: Seq<SortKey>, order: Seq<usize>, x: usize, j: int)
    requires
        0 <= j <= order.len(),
        forall|k: int| j <= k < order.len() ==> !key_le(keys[#[trigger] order[k] as int], keys[x as int]),
    ensures
        insert_ordered(keys, order, x) == insert_ordered(keys, order.take(j), x) + order.skip(j),
    decreases order.len() - j,
{
    if j == order.len() {
        assert(order.take(j) =~= order);
        assert(order.skip(j) =~= Seq::<usize>::empty());
        assert(insert_ordered(keys, order, x) + Seq::<usize>::empty() =~= insert_ordered(
            keys,
            order,
            x,
        ));
    } else {
        let shorter = order.drop_last();
        assert(!key_le(keys[order[order.len() - 1] as int], keys[x as int]));
        lemma_insert_split(keys, shorter, x, j);
        assert(shorter.take(j) =~= order.take(j));
        assert(shorter.skip(j).push(order.last()) =~= order.skip(j));
        assert((insert_ordered(keys, shorter.take(j), x) + shorter.skip(j)).push(order.last())
            =~= insert_ordered(keys, order.take(j), x) + order.skip(j));
    }
}

/// Where the last entry before `j` does not come after `x`, `x` lands at `j`.
proof fn lemma_insert_lands(keys: Seq<SortKey>, order: Seq<usize>, x: usize, j: int)
    requires
        0 <= j <= order.len(),
        forall|k: int| j <= k < order.len() ==> !key_le(keys[#[trigger] order[k] as int], keys[x as int]),
        j > 0 ==> key_le(keys[order[j - 1] as int], keys[x as int]),
    ensures
        insert_ordered(keys, order, x) == order.insert(j, x),
{
    lemma_insert_split(keys, order, x, j);
    let head = order.take(j);
    if j == 0 {
        assert(head.len() == 0);
        assert(seq![x] + order.skip(0) =~= order.insert(0, x));
    } else {
        assert(head.last() == order[j - 1]);
        assert(head.push(x) + order.skip(j) =~= order.insert(j, x));
    }
}

/// Inserting a fresh last position keeps an ordered, complete list ordered and complete.
proof fn lemma_insert_keeps_order(keys: Seq<SortKey>, order: Seq<usize>, x: usize, j: int)
    requires
        x < keys.len(),
        is_ordered(keys, order),
        lists_all(order, x as int),
        0 <= j <= order.len(),
        forall|k: int| j <= k < order.len() ==> !key_le(keys[#[trigger] order[k] as int], keys[x as int]),
        forall|k: int| 0 <= k < j ==> key_le(keys[#[trigger] order[k] as int], keys[x as int]),
    ensures
        is_ordered(keys, order.insert(j, x)),
        lists_all(order.insert(j, x), x + 1),
{
    let after = order.insert(j, x);
    assert forall|a: int, b: int| 0 <= a < b < after.len() implies stands_before(
        keys,
        #[trigger] after[a] as int,
        #[trigger] after[b] as int,
    ) by {
        if b < j {
            assert(after[a] == order[a] && after[b] == order[b]);
        } else if b == j {
            assert(after[a] == order[a]);
            assert(order[a] < x);
        } else if a < j {
            assert(after[a] == order[a] && after[b] == order[b - 1]);
            if a < b - 1 {
            } else {
                assert(false);
            }
        } else if a == j {
            assert(after[b] == order[b - 1]);
        } else {
            assert(after[a] == order[a - 1] && after[b] == order[b - 1]);
        }
    }
    assert forall|p: usize| p < x + 1 implies #[trigger] after.contains(p) by {
        if p == x {
            assert(after[j] == p);
        } else {
            assert(order.contains(p));
            let k = choose|k: int| 0 <= k < order.len() && order[k] == p;
            if k < j {
                assert(after[k] == p);
            } else {
                assert(after[k + 1] == p);
            }
        }
    }
}

/// The stable order lists every position once, each before every later one.
pub proof fn lemma_stable_order_sorted(keys: Seq<SortKey>, n: nat)
    requires
        n <= keys.len(),
        keys.len() <= usize::MAX,
    ensures
        is_ordered(keys, stable_order_of(keys, n)),
        lists_all(stable_order_of(keys, n), n as int),
    decreases n,
{
    if n > 0 {
        let before = stable_order_of(keys, (n - 1) as nat);
        let x = (n - 1) as usize;
        lemma_stable_order_sorted(keys, (n - 1) as nat);
        let j = insertion_point(keys, before, x);
        lemma_insertion_point(keys, before, x, before.len() as int);
        lemma_insert_lands(keys, before, x, j);
        lemma_insert_keeps_order(keys, before, x, j);
    }
}

/// The stable order of the first `n` positions is the stable order of the
/// positions before the last, with the last put in somewhere.
pub proof fn lemma_stable_order_grows(keys: Seq<SortKey>, n: nat)
    requires
        0 < n <= keys.len(),
        keys.len() <= usize::MAX,
    ensures
        exists|j: int|
            0 <= j <= n - 1 && #[trigger] stable_order_of(keys, (n - 1) as nat).insert(
                j,
                (n - 1) as usize,
            ) == stable_order_of(keys, n),
{
    let before = stable_order_of(keys, (n - 1) as nat);
    let x = (n - 1) as usize;
    lemma_stable_order_sorted(keys, (n - 1) as nat);
    let j = insertion_point(keys, before, x);
    lemma_insertion_point(keys, before, x, before.len() as int);
    lemma_insert_lands(keys, before, x, j);
    assert(before.insert(j, x) == stable_order_of(keys, n));
}

/// One past the last entry among the first `upto` that does not come after `x`.
pub open spec fn insertion_point_upto(keys: Seq<SortKey>, order: Seq<usize>, x: usize, upto: int) -> int
    decreases upto,
{
    if upto <= 0 {
        0
    } else if key_le(keys[order[upto - 1] as int], keys[x as int]) {
        upto
    } else {
        insertion_point_upto(keys, order, x, upto - 1)
    }
}

/// One past the last entry of `order` that does not come after `x`.
pub open spec fn insertion_point(keys: Seq<SortKey>, order: Seq<usize>, x: usize) -> int {
    insertion_point_upto(keys, order, x, order.len() as int)
}

proof fn lemma_insertion_point(keys: Seq<SortKey>, order: Seq<usize>, x: usize, upto: int)
    requires
        x < keys.len(),
        is_ordered(keys, order),
        0 <= upto <= order.len(),
        forall|k: int| 0 <= k < order.len() ==> (#[trigger] order[k]) < x,
    ensures
        ({
            let j = insertion_point_upto(keys, order, x, upto);
            &&& 0 <= j <= upto
            &&& forall|k: int| j <= k < upto ==> !key_le(keys[#[trigger] order[k] as int], keys[x as int])
            &&& forall|k: int| 0 <= k < j ==> key_le(keys[#[trigger] order[k] as int], keys[x as int])
            &&& j > 0 ==> key_le(keys[order[j - 1] as int], keys[x as int])
        }),
    decreases upto,
{
    if upto > 0 {
        if key_le(keys[order[upto - 1] as int], keys[x as int]) {
            assert forall|k: int| 0 <= k < upto implies key_le(
                keys[#[trigger] order[k] as int],
                keys[x as int],
            ) by {
                if k < upto - 1 {
                    assert(stands_before(keys, order[k] as int, order[upto - 1] as int));
                }
            }
        } else {
            lemma_insertion_point(keys, order, x, upto - 1);
        }
    }
}

/// Sorts the positions of `keys` by key, ascending; positions with equal keys
/// keep their order.
pub fn sort_positions(keys: &Vec<SortKey>) -> (order: Vec<usize>)
    ensures
        order@ == stable_order(keys@),
        is_ordered(keys@, order@),
        lists_all(order@, keys@.len() as int),
{
    let n = keys.len();
    let mut order: Vec<usize> = Vec::new();
    let mut i: usize = 0;
    while i < n
        invariant
            n == keys.len(),
            i <= n,
            order@ == stable_order_of(keys@, i as nat),
            is_ordered(keys@, order@),
            lists_all(order@, i as int),
        decreases n - i,
    {
        let key = keys[i];
        let mut j: usize = order.len();
        while j > 0 && !(keys[order[j - 1]].0 < key.0 || (keys[order[j - 1]].0 == key.0
            && keys[order[j - 1]].1 <= key.1))
            invariant
                n == keys.len(),
                i < n,
                key == keys@[i as int],
                j <= order.len(),
                is_ordered(keys@, order@),
                lists_all(order@, i as int),
                forall|k: int|
                    j <= k < order.len() ==> !key_le(
                        keys@[#[trigger] order@[k] as int],
                        keys@[i as int],
                    ),
            decreases j,
        {
            j -= 1;
        }
        proof {
            assert forall|k: int| 0 <= k < j implies key_le(
                keys@[#[trigger] order@[k] as int],
                keys@[i as int],
            ) by {
                if k < j - 1 {
                    assert(stands_before(keys@, order@[k] as int, order@[j - 1] as int));
                }
            }
            lemma_insert_lands(keys@, order@, i, j as int);
            lemma_insert_keeps_order(keys@, order@, i, j as int);
        }
        order.insert(j, i);
        i += 1;
    }
    order
}

} // verus!
