//! The hashing policy: how a node or a key gets its position on the circle.

use std::collections::hash_map::DefaultHasher;
use std::hash::{Hash, Hasher};
use vstd::prelude::*;
use vstd::std_specs::hash::DefaultHasherAdditionalSpecFns;

verus! {

/// Feeds `value` to `state` by `std::hash::Hash::hash`.
///
/// Nothing is claimed of the state afterwards: what is written is decided by
/// the `Hash` impl of `V`, which is the caller's own.
#[verifier::external_body]
fn feed<V: Hash>(value: &V, state: &mut DefaultHasher) {
    value.hash(state);
}

/// The position of `value` on the circle: the digest that the default hasher
/// gives for what `value` wrote to it, starting from the clean state.
///
/// Which writes those are is decided by the `Hash` impl of `V`, so the
/// contract only says that the position is the digest of some record of them.
pub fn position_of<V: Hash>(value: &V) -> (position: u64)
    ensures
        exists|written: Seq<Seq<u8>>| position == DefaultHasher::spec_finish(written),
{
    let mut state = DefaultHasher::new();
    feed(value, &mut state);
    state.finish()
}

} // verus!
