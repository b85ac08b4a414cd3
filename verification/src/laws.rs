//! What holds of every ring: which keys keep their node when the membership
//! changes, and which do not.
//!
//! The laws speak of positions. A key enters them by the position that it
//! hashes to, a node by the position at which it sits.

use crate::circle::{
    evict, in_arc, is_highest, is_lowest, lemma_lowest, lemma_predecessor, lemma_successor,
    lemma_successor_is, lowest, occupied, predecessor, resolve, resolves_to, successor,
};
use vstd::prelude::*;

verus! {

/// A ring and a position leave no choice: two answers that both meet the
/// contract of a lookup are the same answer.
pub proof fn law_one_answer<T>(ring: Map<u64, T>, position: u64, a: Option<&T>, b: Option<&T>)
    requires
        resolves_to(ring, position, a),
        resolves_to(ring, position, b),
    ensures
        a == b,
{
}

/// Every position resolves to a node of the ring, unless the ring has none.
pub proof fn law_total_coverage<T>(ring: Map<u64, T>, position: u64)
    ensures
        resolve(ring, position) is Some <==> occupied(ring.dom()),
        occupied(ring.dom()) ==> ring.contains_key(successor(ring.dom(), position)),
{
    if occupied(ring.dom()) {
        lemma_successor(ring.dom(), position);
    }
}

/// A position above every node wraps around: it resolves to the node at the
/// lowest position.
pub proof fn law_wrap_around<T>(ring: Map<u64, T>, position: u64)
    requires
        occupied(ring.dom()),
        forall|q: u64| ring.contains_key(q) ==> q < position,
    ensures
        is_lowest(ring.dom(), lowest(ring.dom())),
        successor(ring.dom(), position) == lowest(ring.dom()),
        resolve(ring, position) == Some(ring[lowest(ring.dom())]),
{
    let q: u64 = choose|q: u64| ring.dom().contains(q);
    lemma_lowest(ring.dom(), q);
    lemma_successor_is(ring.dom(), position, lowest(ring.dom()));
}

/// A position that holds a node resolves to that node.
pub proof fn law_node_owns_its_position<T>(ring: Map<u64, T>, x: u64)
    requires
        ring.contains_key(x),
    ensures
        successor(ring.dom(), x) == x,
        resolve(ring, x) == Some(ring[x]),
        evict(ring, x) == ring.remove(x),
{
    lemma_successor_is(ring.dom(), x, x);
}

/// Taking the node at `x` away disturbs only the keys that belonged to it.
/// A position that resolved to another node still resolves to that node. A
/// position that resolved to the node at `x` now resolves to what `x` itself
/// resolves to on the ring that is left: the next node clockwise, which is
/// the lowest one if `x` was the highest.
pub proof fn law_removal_disturbs_one_node<T>(ring: Map<u64, T>, x: u64, position: u64)
    requires
        ring.contains_key(x),
    ensures
        successor(ring.dom(), position) != x ==> resolve(ring.remove(x), position) == resolve(
            ring,
            position,
        ),
        successor(ring.dom(), position) == x ==> resolve(ring.remove(x), position) == resolve(
            ring.remove(x),
            x,
        ),
        is_highest(ring.dom(), x) && occupied(ring.remove(x).dom()) ==> resolve(ring.remove(x), x)
            == Some(ring.remove(x)[lowest(ring.remove(x).dom())]),
{
    let before = ring.dom();
    let after = ring.remove(x).dom();
    assert(after == before.remove(x));
    lemma_successor(before, position);
    let s = successor(before, position);
    if s != x {
        assert(after.contains(s));
        lemma_successor_is(after, position, s);
    } else if occupied(after) {
        lemma_successor(after, x);
        let t = successor(after, x);
        lemma_successor_is(after, position, t);
    }
    if is_highest(before, x) && occupied(after) {
        law_wrap_around(ring.remove(x), x);
    }
}

/// Putting a node at `y` disturbs only one arc of the circle. The positions
/// after the clockwise predecessor of `y` and up to `y` now resolve to the
/// new node; every other position resolves as before.
pub proof fn law_insertion_claims_one_arc<T>(ring: Map<u64, T>, y: u64, node: T, position: u64)
    requires
        occupied(ring.dom()),
    ensures
        resolve(ring.insert(y, node), position) == if in_arc(
            predecessor(ring.dom(), y),
            position,
            y,
        ) {
            Some(node)
        } else {
            resolve(ring, position)
        },
{
    let before = ring.dom();
    let after = ring.insert(y, node).dom();
    assert(after == before.insert(y));
    assert(occupied(after)) by {
        assert(after.contains(y));
    }
    lemma_predecessor(before, y);
    let from = predecessor(before, y);
    if in_arc(from, position, y) {
        lemma_successor_is(after, position, y);
    } else {
        lemma_successor(before, position);
        let s = successor(before, position);
        lemma_successor_is(after, position, s);
    }
}

/// On a ring without nodes every position is claimed by the first node that
/// is put on it.
pub proof fn law_first_node_claims_all<T>(ring: Map<u64, T>, y: u64, node: T, position: u64)
    requires
        !occupied(ring.dom()),
    ensures
        resolve(ring.insert(y, node), position) == Some(node),
{
    let after = ring.insert(y, node).dom();
    assert(after.contains(y));
    assert forall|q: u64| after.contains(q) implies q == y by {
        if q != y {
            assert(ring.dom().contains(q));
        }
    }
    lemma_successor_is(after, position, y);
}

/// The empty ring resolves nothing, and taking a node away from it leaves
/// it empty.
pub proof fn law_empty_ring<T>(position: u64)
    ensures
        resolve(Map::<u64, T>::empty(), position) is None,
        evict(Map::<u64, T>::empty(), position) == Map::<u64, T>::empty(),
{
}

} // verus!
