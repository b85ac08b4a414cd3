//! The circle of positions, as mathematics: which member of a set of positions
//! is met first when walking clockwise from a given point, and what a ring,
//! seen as a map from position to node, gives for a key at that point.
//!
//! Positions are `u64` values in ascending order; past `u64::MAX` the circle
//! continues at zero. Nothing here assumes that the set of positions is finite:
//! every set of `u64` values with a member has a smallest and a largest one.

use vstd::prelude::*;

verus! {

/// Some position is taken.
pub open spec fn occupied(positions: Set<u64>) -> bool {
    exists|q: u64| positions.contains(q)
}

/// `s` is a member of `positions` and no member lies below it.
pub open spec fn is_lowest(positions: Set<u64>, s: u64) -> bool {
    &&& positions.contains(s)
    &&& forall|q: u64| positions.contains(q) ==> s <= q
}

/// `s` is a member of `positions` and no member lies above it.
pub open spec fn is_highest(positions: Set<u64>, s: u64) -> bool {
    &&& positions.contains(s)
    &&& forall|q: u64| positions.contains(q) ==> q <= s
}

/// The smallest member of `positions`.
pub open spec fn lowest(positions: Set<u64>) -> u64
    recommends
        occupied(positions),
{
    choose|s: u64| is_lowest(positions, s)
}

/// The largest member of `positions`.
pub open spec fn highest(positions: Set<u64>) -> u64
    recommends
        occupied(positions),
{
    choose|s: u64| is_highest(positions, s)
}

/// The members of `positions` that lie at `p` or above it.
pub open spec fn ahead(positions: Set<u64>, p: u64) -> Set<u64> {
    Set::new(|q: u64| positions.contains(q) && p <= q)
}

/// The members of `positions` that lie strictly below `p`.
pub open spec fn behind(positions: Set<u64>, p: u64) -> Set<u64> {
    Set::new(|q: u64| positions.contains(q) && q < p)
}

/// The clockwise successor of `p`: the smallest member at or above `p`, or,
/// when no member is that high, the smallest member of all.
pub open spec fn successor(positions: Set<u64>, p: u64) -> u64
    recommends
        occupied(positions),
{
    if occupied(ahead(positions, p)) {
        lowest(ahead(positions, p))
    } else {
        lowest(positions)
    }
}

/// The clockwise predecessor of `p`: the largest member strictly below `p`,
/// or, when no member is that low, the largest member of all.
pub open spec fn predecessor(positions: Set<u64>, p: u64) -> u64
    recommends
        occupied(positions),
{
    if occupied(behind(positions, p)) {
        highest(behind(positions, p))
    } else {
        highest(positions)
    }
}

/// `p` lies on the clockwise arc that starts just after `from` and ends at
/// `to`, `to` included. When `from == to` the arc is the whole circle.
pub open spec fn in_arc(from: u64, p: u64, to: u64) -> bool {
    if from < to {
        from < p && p <= to
    } else {
        from < p || p <= to
    }
}

/// `s` is a member, and walking clockwise from `p` no other member is met
/// before it.
pub open spec fn is_successor(positions: Set<u64>, p: u64, s: u64) -> bool {
    &&& positions.contains(s)
    &&& forall|q: u64|
        positions.contains(q) ==> if p <= s {
            q < p || s <= q
        } else {
            q < p && s <= q
        }
}

/// The node to which a key at position `p` belongs: the one stored at the
/// clockwise successor of `p`, or none on an empty ring.
pub open spec fn resolve<T>(ring: Map<u64, T>, p: u64) -> Option<T> {
    if occupied(ring.dom()) {
        Some(ring[successor(ring.dom(), p)])
    } else {
        None
    }
}

/// `found` is what a key at position `p` resolves to on `ring`.
pub open spec fn resolves_to<T>(ring: Map<u64, T>, p: u64, found: Option<&T>) -> bool {
    match found {
        Some(node) => resolve(ring, p) == Some(*node),
        None => resolve(ring, p) is None,
    }
}

/// The ring that is left when the node met first clockwise from `p` is taken
/// away. An empty ring stays empty.
pub open spec fn evict<T>(ring: Map<u64, T>, p: u64) -> Map<u64, T> {
    if occupied(ring.dom()) {
        ring.remove(successor(ring.dom(), p))
    } else {
        ring
    }
}

/// The ring that holds each of `nodes` at the position of the same index,
/// put in one after the other: at a position given twice the later node
/// stays.
pub open spec fn placed<T>(nodes: Seq<T>, positions: Seq<u64>) -> Map<u64, T>
    recommends
        nodes.len() == positions.len(),
    decreases nodes.len(),
{
    if nodes.len() == 0 {
        Map::empty()
    } else {
        placed(nodes.drop_last(), positions.drop_last()).insert(positions.last(), nodes.last())
    }
}

/// A set of positions with a member has a smallest member, which is no larger
/// than the given one.
pub proof fn lemma_lowest(positions: Set<u64>, member: u64)
    requires
        positions.contains(member),
    ensures
        is_lowest(positions, lowest(positions)),
        lowest(positions) <= member,
    decreases member,
{
    if exists|q: u64| positions.contains(q) && q < member {
        let q: u64 = choose|q: u64| positions.contains(q) && q < member;
        lemma_lowest(positions, q);
    } else {
        assert(is_lowest(positions, member));
    }
}

/// A set of positions with a member has a largest member, which is no smaller
/// than the given one.
pub proof fn lemma_highest(positions: Set<u64>, member: u64)
    requires
        positions.contains(member),
    ensures
        is_highest(positions, highest(positions)),
        member <= highest(positions),
    decreases u64::MAX - member,
{
    if exists|q: u64| positions.contains(q) && member < q {
        let q: u64 = choose|q: u64| positions.contains(q) && member < q;
        lemma_highest(positions, q);
    } else {
        assert(is_highest(positions, member));
    }
}

/// On an occupied circle every point has a clockwise successor, and
/// `successor` is it.
pub proof fn lemma_successor(positions: Set<u64>, p: u64)
    requires
        occupied(positions),
    ensures
        is_successor(positions, p, successor(positions, p)),
{
    let near = ahead(positions, p);
    if occupied(near) {
        let q: u64 = choose|q: u64| near.contains(q);
        lemma_lowest(near, q);
        let s = lowest(near);
        assert forall|r: u64| positions.contains(r) implies r < p || s <= r by {
            if p <= r {
                assert(near.contains(r));
            }
        }
    } else {
        let q: u64 = choose|q: u64| positions.contains(q);
        lemma_lowest(positions, q);
        let s = lowest(positions);
        assert forall|r: u64| positions.contains(r) implies r < p && s <= r by {
            if p <= r {
                assert(near.contains(r));
            }
        }
        assert(s < p);
    }
}

/// No point has two clockwise successors.
pub proof fn lemma_successor_unique(positions: Set<u64>, p: u64, a: u64, b: u64)
    requires
        is_successor(positions, p, a),
        is_successor(positions, p, b),
    ensures
        a == b,
{
}

/// Whatever satisfies `is_successor` is what `successor` returns.
pub proof fn lemma_successor_is(positions: Set<u64>, p: u64, s: u64)
    requires
        is_successor(positions, p, s),
    ensures
        successor(positions, p) == s,
{
    assert(occupied(positions));
    lemma_successor(positions, p);
    lemma_successor_unique(positions, p, s, successor(positions, p));
}

/// On an occupied circle every point has a clockwise predecessor: a member
/// such that no other member lies on the arc from it to `p`.
pub proof fn lemma_predecessor(positions: Set<u64>, p: u64)
    requires
        occupied(positions),
    ensures
        positions.contains(predecessor(positions, p)),
        forall|q: u64|
            positions.contains(q) ==> if predecessor(positions, p) < p {
                q <= predecessor(positions, p) || p <= q
            } else {
                p <= q && q <= predecessor(positions, p)
            },
{
    let back = behind(positions, p);
    if occupied(back) {
        let q: u64 = choose|q: u64| back.contains(q);
        lemma_highest(back, q);
        let h = highest(back);
        assert forall|r: u64| positions.contains(r) implies r <= h || p <= r by {
            if r < p {
                assert(back.contains(r));
            }
        }
    } else {
        let q: u64 = choose|q: u64| positions.contains(q);
        lemma_highest(positions, q);
        let h = highest(positions);
        assert forall|r: u64| positions.contains(r) implies p <= r && r <= h by {
            if r < p {
                assert(back.contains(r));
            }
        }
    }
}

} // verus!
