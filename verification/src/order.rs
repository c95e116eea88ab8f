//! Stable ordering of records by integer keys.

use vstd::prelude::*;

verus! {

/// A key of two integers, compared by `major` first.
#[derive(Clone, Copy, Debug, PartialEq, Eq, Structural)]
pub struct SortKey {
    pub major: i128,
    pub minor: i128,
}

/// Whether `a` orders strictly before `b`.
pub open spec fn key_before(a: SortKey, b: SortKey) -> bool {
    a.major < b.major || (a.major == b.major && a.minor < b.minor)
}

/// Whether record `i` stands before record `j`: a smaller key, or an equal key
/// and an earlier position.
pub open spec fn stands_before(keys: Seq<SortKey>, i: int, j: int) -> bool {
    key_before(keys[i], keys[j]) || (keys[i] == keys[j] && i < j)
}

/// Whether `order` lists the positions `low..high`, each once, in stable order of
/// their keys.
pub open spec fn orders_range(keys: Seq<SortKey>, order: Seq<usize>, low: int, high: int) -> bool {
    &&& order.len() == high - low
    &&& forall|k: int| 0 <= k < order.len() ==> low <= #[trigger] order[k] < high
    &&& forall|p: usize| low <= p < high ==> #[trigger] order.contains(p)
    &&& forall|a: int, b: int|
        0 <= a < b < order.len() ==> stands_before(
            keys,
            #[trigger] order[a] as int,
            #[trigger] order[b] as int,
        )
}

/// Whether `order` lists all positions of `keys`, each once, in stable order of the keys.
pub open spec fn stable_ordering(keys: Seq<SortKey>, order: Seq<usize>) -> bool {
    orders_range(keys, order, 0, keys.len() as int)
}

fn key_at_most(a: SortKey, b: SortKey) -> (le: bool)
    ensures
        le == !key_before(b, a),
{
    a.major < b.major || (a.major == b.major && a.minor <= b.minor)
}

/// Merges the stable orders of two neighbouring ranges.
fn merge(
    keys: &Vec<SortKey>,
    left: &Vec<usize>,
    right: &Vec<usize>,
    Ghost(low): Ghost<int>,
    Ghost(mid): Ghost<int>,
    Ghost(high): Ghost<int>,
) -> (order: Vec<usize>)
    requires
        0 <= low <= mid <= high <= keys@.len(),
        orders_range(keys@, left@, low, mid),
        orders_range(keys@, right@, mid, high),
    ensures
        orders_range(keys@, order@, low, high),
{
    let mut order: Vec<usize> = Vec::new();
    let mut i: usize = 0;
    let mut j: usize = 0;
    while i < left.len() || j < right.len()
        invariant
            0 <= low <= mid <= high <= keys@.len(),
            orders_range(keys@, left@, low, mid),
            orders_range(keys@, right@, mid, high),
            i <= left@.len(),
            j <= right@.len(),
            order@.len() == i + j,
            forall|k: int| 0 <= k < order@.len() ==> low <= #[trigger] order@[k] < high,
            forall|a: int| 0 <= a < i ==> order@.contains(#[trigger] left@[a]),
            forall|b: int| 0 <= b < j ==> order@.contains(#[trigger] right@[b]),
            forall|a: int, b: int|
                0 <= a < b < order@.len() ==> stands_before(
                    keys@,
                    #[trigger] order@[a] as int,
                    #[trigger] order@[b] as int,
                ),
            forall|k: int, a: int|
                0 <= k < order@.len() && i <= a < left@.len() ==> stands_before(
                    keys@,
                    #[trigger] order@[k] as int,
                    #[trigger] left@[a] as int,
                ),
            forall|k: int, b: int|
                0 <= k < order@.len() && j <= b < right@.len() ==> stands_before(
                    keys@,
                    #[trigger] order@[k] as int,
                    #[trigger] right@[b] as int,
                ),
        decreases left@.len() - i + right@.len() - j,
    {
        let ghost before = order@;
        let take_left: bool = if i >= left.len() {
            false
        } else if j >= right.len() {
            true
        } else {
            key_at_most(keys[left[i]], keys[right[j]])
        };
        if take_left {
            order.push(left[i]);
            assert(order@[before.len() as int] == left@[i as int]);
            i = i + 1;
        } else {
            order.push(right[j]);
            assert(order@[before.len() as int] == right@[j as int]);
            j = j + 1;
        }
        proof {
            assert forall|x: usize| before.contains(x) implies order@.contains(x) by {
                let p = choose|p: int| 0 <= p < before.len() && before[p] == x;
                assert(order@[p] == x);
            }
        }
    }
    proof {
        assert forall|p: usize| low <= p < high implies #[trigger] order@.contains(p) by {
            if p < mid {
                assert(left@.contains(p));
            } else {
                assert(right@.contains(p));
            }
        }
    }
    order
}

fn order_range(keys: &Vec<SortKey>, low: usize, high: usize) -> (order: Vec<usize>)
    requires
        low <= high <= keys@.len(),
    ensures
        orders_range(keys@, order@, low as int, high as int),
    decreases high - low,
{
    let mut order: Vec<usize> = Vec::new();
    if high - low == 0 {
        return order;
    }
    if high - low == 1 {
        order.push(low);
        assert(order@[0] == low);
        return order;
    }
    let mid: usize = low + (high - low) / 2;
    let left = order_range(keys, low, mid);
    let right = order_range(keys, mid, high);
    merge(keys, &left, &right, Ghost(low as int), Ghost(mid as int), Ghost(high as int))
}

/// The positions of `keys` in stable order: by key, and by position among equal keys.
pub fn stable_order(keys: &Vec<SortKey>) -> (order: Vec<usize>)
    ensures
        stable_ordering(keys@, order@),
{
    order_range(keys, 0, keys.len())
}

proof fn lemma_agree_up_to(keys: Seq<SortKey>, a: Seq<usize>, b: Seq<usize>, n: int)
    requires
        stable_ordering(keys, a),
        stable_ordering(keys, b),
        0 <= n <= keys.len(),
        keys.len() <= usize::MAX,
    ensures
        forall|i: int| 0 <= i < n ==> a[i] == b[i],
    decreases n,
{
    if n > 0 {
        lemma_agree_up_to(keys, a, b, n - 1);
        let m = n - 1;
        assert(b.contains(a[m]));
        assert(a.contains(b[m]));
        let p = choose|p: int| 0 <= p < b.len() && b[p] == a[m];
        let q = choose|q: int| 0 <= q < a.len() && a[q] == b[m];
        if p < m {
            assert(a[p] == b[p]);
            assert(stands_before(keys, a[p] as int, a[m] as int));
        }
        if q < m {
            assert(a[q] == b[q]);
            assert(stands_before(keys, b[q] as int, b[m] as int));
        }
        if a[m] != b[m] {
            assert(stands_before(keys, b[m] as int, b[p] as int));
            assert(stands_before(keys, a[m] as int, a[q] as int));
        }
    }
}

/// A sequence of keys has one stable order only.
pub proof fn stable_ordering_is_unique(keys: Seq<SortKey>, a: Seq<usize>, b: Seq<usize>)
    requires
        stable_ordering(keys, a),
        stable_ordering(keys, b),
        keys.len() <= usize::MAX,
    ensures
        a == b,
{
    lemma_agree_up_to(keys, a, b, keys.len() as int);
    assert(a =~= b);
}

/// A stable order lists every position once; of two records, the one with the smaller
/// major key comes first, among equal ones the one with the smaller minor key, and among
/// records with equal keys the one that stood first.
pub proof fn stable_orders_sort_by_both_keys(
    keys: Seq<SortKey>,
    order: Seq<usize>,
    a: int,
    b: int,
)
    requires
        stable_ordering(keys, order),
        0 <= a < b < order.len(),
    ensures
        order.len() == keys.len(),
        order[a] != order[b],
        order[a] < keys.len() && order[b] < keys.len(),
        keys[order[a] as int].major <= keys[order[b] as int].major,
        keys[order[a] as int].major == keys[order[b] as int].major ==> keys[order[a] as int].minor
            <= keys[order[b] as int].minor,
        keys[order[a] as int] == keys[order[b] as int] ==> order[a] < order[b],
{
    assert(stands_before(keys, order[a] as int, order[b] as int));
}

} // verus!
