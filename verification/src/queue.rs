//! The frontier of the best-first search: a priority queue of tile keys,
//! and the integer priority that orders it. A priority is a pair: the
//! search's own number, and the tile's key, so that no two tiles are of
//! equal priority.

use priority_queue::PriorityQueue;
use vstd::prelude::*;

verus! {

#[verifier::external_type_specification]
#[verifier::external_body]
#[verifier::reject_recursive_types(I)]
#[verifier::reject_recursive_types(P)]
#[verifier::reject_recursive_types(H)]
pub struct ExPriorityQueue<I, P, H>(PriorityQueue<I, P, H>);

/// What the queue holds: each item with its priority.
pub uninterp spec fn queue_contents(q: PriorityQueue<u32, (i64, u32)>) -> Map<u32, (i64, u32)>;

/// The order of priorities: by the first number, and among equal first
/// numbers by the second.
pub open spec fn prio_le(a: (i64, u32), b: (i64, u32)) -> bool {
    a.0 < b.0 || (a.0 == b.0 && a.1 <= b.1)
}

/// `PriorityQueue::new`: a queue that holds nothing.
#[verifier::external_body]
pub(crate) fn queue_new() -> (result: PriorityQueue<u32, (i64, u32)>)
    ensures
        forall|k: u32| !#[trigger] queue_contents(result).contains_key(k),
{
    PriorityQueue::new()
}

/// `PriorityQueue::push`: the item is in the queue with the priority
/// given, whether it was there before or not; every other item is as it
/// was. Returns the priority that the item had.
#[verifier::external_body]
pub(crate) fn queue_push(
    q: &mut PriorityQueue<u32, (i64, u32)>,
    item: u32,
    priority: (i64, u32),
) -> (r: Option<(i64, u32)>)
    ensures
        queue_contents(*final(q)) == queue_contents(*old(q)).insert(item, priority),
        r == if queue_contents(*old(q)).contains_key(item) {
            Some(queue_contents(*old(q))[item])
        } else {
            None
        },
{
    q.push(item, priority)
}

/// `PriorityQueue::pop`: takes out an item of the greatest priority and
/// returns it with its priority; which one, among several of that
/// priority, is left open. Pairs are ordered as the standard library
/// orders tuples. `None` on a queue that holds nothing.
#[verifier::external_body]
pub(crate) fn queue_pop(q: &mut PriorityQueue<u32, (i64, u32)>) -> (r: Option<(u32, (i64, u32))>)
    ensures
        match r {
            Some((item, priority)) => {
                &&& queue_contents(*old(q)).contains_key(item)
                &&& queue_contents(*old(q))[item] == priority
                &&& forall|k: u32| #[trigger]
                    queue_contents(*old(q)).contains_key(k) ==> prio_le(
                        queue_contents(*old(q))[k],
                        priority,
                    )
                &&& queue_contents(*final(q)) == queue_contents(*old(q)).remove(item)
            },
            None => {
                &&& forall|k: u32| !#[trigger] queue_contents(*old(q)).contains_key(k)
                &&& queue_contents(*final(q)) == queue_contents(*old(q))
            },
        },
{
    q.pop()
}

/// `r` is the integer square root of `n`.
pub open spec fn is_root(r: int, n: int) -> bool {
    r >= 0 && r * r <= n < (r + 1) * (r + 1)
}

/// The integer square root.
pub open spec fn root(n: int) -> int {
    choose|r: int| is_root(r, n)
}

pub proof fn lemma_root_unique(r1: int, r2: int, n: int)
    requires
        is_root(r1, n),
        is_root(r2, n),
    ensures
        r1 == r2,
{
    if r1 < r2 {
        assert((r1 + 1) * (r1 + 1) <= r2 * r2) by (nonlinear_arith)
            requires
                0 <= r1 + 1 <= r2,
        ;
    } else if r2 < r1 {
        assert((r2 + 1) * (r2 + 1) <= r1 * r1) by (nonlinear_arith)
            requires
                0 <= r2 + 1 <= r1,
        ;
    }
}

/// The integer square root of `n`.
pub fn int_sqrt(n: u128) -> (r: u64)
    requires
        n < 0x4_0000_0000_0000_0000,
    ensures
        is_root(r as int, n as int),
        r as int == root(n as int),
        r < 0x2_0000_0000,
{
    let mut lo: u128 = 0;
    let mut hi: u128 = 0x2_0000_0000;
    assert(0x2_0000_0000u128 * 0x2_0000_0000u128 == 0x4_0000_0000_0000_0000) by (nonlinear_arith);
    while hi - lo > 1
        invariant
            0 <= lo < hi <= 0x2_0000_0000,
            lo * lo <= n,
            n < hi * hi,
        decreases hi - lo,
    {
        let mid: u128 = lo + (hi - lo) / 2;
        assert(mid * mid <= 0x2_0000_0000 * 0x2_0000_0000) by (nonlinear_arith)
            requires
                0 <= mid <= 0x2_0000_0000,
        ;
        if mid * mid <= n {
            lo = mid;
        } else {
            hi = mid;
        }
    }
    proof {
        assert(hi == lo + 1);
        assert(is_root(lo as int, n as int));
        lemma_root_unique(lo as int, root(n as int), n as int);
    }
    lo as u64
}

/// What the search orders a tile by: its cost so far and its distance to
/// the nearest food, the distance taken from its square `d2` with
/// sixteen binary places, and the sum negated, so that the least comes
/// out of the queue first.
pub open spec fn priority_of(cost: int, d2: int) -> int {
    -(cost * 65536 + root(d2 * 0x1_0000_0000))
}

pub fn search_priority(cost: u32, d2: u64) -> (p: i64)
    requires
        d2 <= 2 * 65535 * 65535,
    ensures
        p == priority_of(cost as int, d2 as int),
{
    assert(d2 * 0x1_0000_0000 <= 2 * 65535 * 65535 * 0x1_0000_0000) by (nonlinear_arith)
        requires
            0 <= d2 <= 2 * 65535 * 65535,
    ;
    let n: u128 = (d2 as u128) * 0x1_0000_0000u128;
    let r = int_sqrt(n);
    let c: i64 = (cost as i64) * 65536;
    -(c + r as i64)
}

} // verus!
