//! The hashing state of objects whose hash is taken from their address: an
//! object is unhashed until its hash is first asked for, and remembers
//! when it was moved after that.

use std::collections::HashMap;
use vstd::prelude::*;

verus! {

/// The hashing state of an object.
pub type HashedKind = u8;

/// The hash of the object was never asked for.
pub const UNHASHED: HashedKind = 0;

/// The hash of the object was asked for, and the object stands where it
/// stood then.
pub const HASHED: HashedKind = 1;

/// The hash of the object was asked for, and the object was moved since.
pub const HASHED_MOVED: HashedKind = 2;

/// The hashing states of the objects of a heap, kept beside the objects.
pub struct VMLocalAddrspaceHashingBitSpec {
    states: HashMap<u64, HashedKind>,
}

impl View for VMLocalAddrspaceHashingBitSpec {
    type V = Map<u64, HashedKind>;

    closed spec fn view(&self) -> Map<u64, HashedKind> {
        self.states@
    }
}

/// The state that `states` holds for `object`: unhashed where it holds
/// none.
pub open spec fn hashing_status(states: Map<u64, HashedKind>, object: u64) -> HashedKind {
    if states.contains_key(object) {
        states[object]
    } else {
        UNHASHED
    }
}

impl VMLocalAddrspaceHashingBitSpec {
    /// The states of a heap in which no hash was asked for.
    pub fn new() -> (spec: VMLocalAddrspaceHashingBitSpec)
        ensures
            spec@ == Map::<u64, HashedKind>::empty(),
    {
        VMLocalAddrspaceHashingBitSpec { states: HashMap::new() }
    }

    pub fn mark_hashed(&mut self, object: u64)
        ensures
            final(self)@ == old(self)@.insert(object, HASHED),
    {
        broadcast use vstd::std_specs::hash::group_hash_axioms;

        self.states.insert(object, HASHED);
    }

    pub fn mark_hashed_moved(&mut self, object: u64)
        ensures
            final(self)@ == old(self)@.insert(object, HASHED_MOVED),
    {
        broadcast use vstd::std_specs::hash::group_hash_axioms;

        self.states.insert(object, HASHED_MOVED);
    }

    pub fn check_hashing_status(&self, object: u64) -> (kind: HashedKind)
        ensures
            kind == hashing_status(self@, object),
    {
        broadcast use vstd::std_specs::hash::group_hash_axioms;

        match self.states.get(&object) {
            Some(kind) => *kind,
            None => UNHASHED,
        }
    }
}

} // verus!
