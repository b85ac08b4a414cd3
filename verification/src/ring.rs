//! The ring itself: an ordered map from position to node.
//!
//! Every operation comes twice. The one that takes a position says exactly
//! what it does. The one that takes a node or a key hashes it first and then
//! does the same at the position that came out; of that position it can say
//! only that there is one.

use crate::circle::{evict, is_successor, lemma_successor_is, occupied, placed, resolves_to};
use crate::hashing::position_of;
use std::collections::BTreeMap;
use std::hash::Hash;
use std::marker::PhantomData;
use vstd::prelude::*;
use vstd::std_specs::cmp::OrdSpec;
use vstd::std_specs::convert::FromSpecImpl;
use vstd::std_specs::iter::IteratorSpec;

verus! {

/// A consistent-hashing ring of nodes of type `T`, looked up by keys of type
/// `R`.
///
/// Two nodes that hash to one position cannot both be on the ring: the one
/// added later takes the place of the other.
#[derive(Debug)]
pub struct HashRing<T, R> {
    keys: BTreeMap<u64, T>,
    data: PhantomData<R>,
}

impl<T, R> View for HashRing<T, R> {
    type V = Map<u64, T>;

    /// The nodes on the ring, each under its position.
    closed spec fn view(&self) -> Map<u64, T> {
        self.keys@
    }
}

/// `entries` lists `ring` in ascending order of position: every entry is in
/// the ring, every position of the ring has an entry, and positions grow
/// along the list.
spec fn lists<T>(entries: Seq<(&u64, &T)>, ring: Map<u64, T>) -> bool {
    &&& forall|j: int|
        0 <= j < entries.len() ==> ring.contains_key(*(#[trigger] entries[j]).0) && ring[*entries[j].0]
            == *entries[j].1
    &&& forall|k: u64|
        ring.contains_key(k) ==> exists|j: int|
            0 <= j < entries.len() && *(#[trigger] entries[j]).0 == k
    &&& forall|i: int, j: int|
        0 <= i < j < entries.len() ==> *(#[trigger] entries[i]).0 < *(#[trigger] entries[j]).0
}

impl<T, R> Default for HashRing<T, R> {
    /// The empty ring.
    fn default() -> (ring: Self)
        ensures
            ring@ == Map::<u64, T>::empty(),
    {
        HashRing { keys: BTreeMap::new(), data: PhantomData }
    }
}

impl<T, R> HashRing<T, R> {
    /// The entry at the clockwise successor of `position`.
    fn find(&self, position: u64) -> (found: Option<(u64, &T)>)
        ensures
            match found {
                None => !occupied(self@.dom()),
                Some((s, node)) => is_successor(self@.dom(), position, s) && *node == self@[s],
            },
    {
        let mut first: Option<(u64, &T)> = None;
        let entries = self.keys.iter();
        proof {
            let listed = entries.remaining();
            let positions = listed.map_values(|kv: (&u64, &T)| *kv.0);
            assert forall|i: int, j: int| 0 <= i < j < listed.len() implies *(#[trigger] listed[i]).0
                < *(#[trigger] listed[j]).0 by {
                assert(positions[i].cmp_spec(&positions[j]) is Less);
            }
            assert forall|k: u64| self@.contains_key(k) implies exists|j: int|
                0 <= j < listed.len() && *(#[trigger] listed[j]).0 == k by {
                assert(listed.contains((&k, &self@[k])));
            }
        }
        for entry in it: entries
            invariant
                lists(it.seq(), self@),
                forall|j: int| 0 <= j < it.index() ==> *(#[trigger] it.seq()[j]).0 < position,
                it.index() == 0 ==> first is None,
                it.index() > 0 ==> first == Some((*it.seq()[0].0, it.seq()[0].1)),
        {
            let (k, v) = entry;
            if position <= *k {
                return Some((*k, v));
            }
            if first.is_none() {
                first = Some((*k, v));
            }
        }
        first
    }

    /// The number of nodes on the ring.
    pub fn len(&self) -> (n: usize)
        ensures
            n == self@.dom().len(),
    {
        self.keys.len()
    }

    /// Puts `node` at `position`, in place of whatever was there. The ring
    /// grows by one node, unless the position was taken.
    pub fn add_node_at(&mut self, position: u64, node: T)
        ensures
            final(self)@ == old(self)@.insert(position, node),
            final(self)@.dom().len() == old(self)@.dom().len() + if old(self)@.contains_key(
                position,
            ) {
                0int
            } else {
                1int
            },
    {
        self.keys.insert(position, node);
    }

    /// Takes away the node met first clockwise from `position`. On an empty
    /// ring nothing happens.
    ///
    /// The node that leaves need not sit at `position` itself: it is the one
    /// to which a key at `position` resolves.
    pub fn remove_node_at(&mut self, position: u64)
        ensures
            final(self)@ == evict(old(self)@, position),
            final(self)@.dom().len() == if old(self)@.dom().is_empty() {
                0int
            } else {
                old(self)@.dom().len() - 1
            },
    {
        let target = match self.find(position) {
            Some((s, _)) => s,
            None => { return ; },
        };
        proof {
            lemma_successor_is(self@.dom(), position, target);
        }
        self.keys.remove(&target);
    }

    /// The node to which a key at `position` belongs: the one met first
    /// clockwise from there, or none on an empty ring.
    pub fn get_node_at(&self, position: u64) -> (found: Option<&T>)
        ensures
            resolves_to(self@, position, found),
            found is None <==> self@.dom().is_empty(),
            found matches Some(node) ==> self@.contains_value(*node),
    {
        match self.find(position) {
            Some((s, node)) => {
                proof {
                    lemma_successor_is(self@.dom(), position, s);
                }
                Some(node)
            },
            None => None,
        }
    }
}

impl<T: Hash + Clone, R: Hash> HashRing<T, R> {
    /// Puts `node` on the ring at the position it hashes to, in place of
    /// whatever was there.
    pub fn add_node(&mut self, node: T)
        ensures
            exists|position: u64| final(self)@ == old(self)@.insert(position, node),
            old(self)@.dom().len() <= final(self)@.dom().len() <= old(self)@.dom().len() + 1,
    {
        let position = position_of(&node);
        self.add_node_at(position, node);
    }

    /// Takes away the node met first clockwise from the position that `node`
    /// hashes to. On an empty ring nothing happens.
    ///
    /// A node that is on the ring is its own clockwise successor, so it is
    /// the one that leaves. For a node that is not, its clockwise successor
    /// leaves in its place.
    pub fn remove_node(&mut self, node: &T)
        ensures
            exists|position: u64| final(self)@ == evict(old(self)@, position),
            final(self)@.dom().len() == if old(self)@.dom().is_empty() {
                0int
            } else {
                old(self)@.dom().len() - 1
            },
    {
        let position = position_of(node);
        self.remove_node_at(position);
    }

    /// The node to which `key` belongs: the one met first clockwise from
    /// the position that `key` hashes to, or none on an empty ring.
    pub fn get_node(&self, key: &R) -> (found: Option<&T>)
        ensures
            exists|position: u64| resolves_to(self@, position, found),
            found is None <==> self@.dom().is_empty(),
            found matches Some(node) ==> self@.contains_value(*node),
    {
        if self.keys.is_empty() {
            assert(resolves_to(self@, 0, None));
            return None;
        }
        let position = position_of(key);
        self.get_node_at(position)
    }
}

impl<T: Hash + Clone, R: Hash> FromSpecImpl<Vec<T>> for HashRing<T, R> {
    /// The positions come from hashing, so no spec function gives the ring
    /// that `from` builds.
    open spec fn obeys_from_spec() -> bool {
        false
    }

    open spec fn from_spec(value: Vec<T>) -> Self {
        arbitrary()
    }
}

impl<T: Hash + Clone, R: Hash> From<Vec<T>> for HashRing<T, R> {
    /// The ring that holds the nodes of `value`, added one after the other
    /// in the order of the list.
    fn from(value: Vec<T>) -> (ring: Self)
        ensures
            exists|positions: Seq<u64>|
                positions.len() == value@.len() && ring@ == placed(value@, positions),
    {
        let mut ring: Self = HashRing { keys: BTreeMap::new(), data: PhantomData };
        let ghost nodes = value@;
        let ghost mut positions: Seq<u64> = Seq::empty();
        for node in it: value
            invariant
                it.seq() == nodes,
                positions.len() == it.index(),
                ring@ == placed(nodes.take(it.index()), positions),
        {
            let ghost before = ring@;
            let ghost done = nodes.take(it.index());
            ring.add_node(node);
            proof {
                let p: u64 = choose|p: u64| ring@ == before.insert(p, node);
                assert(done.push(node).drop_last() == done);
                assert(positions.push(p).drop_last() == positions);
                assert(nodes.take(it.index() + 1) == done.push(node));
                positions = positions.push(p);
            }
        }
        proof {
            assert(nodes.take(positions.len() as int) == nodes);
        }
        ring
    }
}

} // verus!
