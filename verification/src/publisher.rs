//! The published-snapshot slot: the single value shared between the
//! aggregation worker and its readers. The worker overwrites it at publish
//! boundaries; a reader copies it out. Before the first publish it holds the
//! empty-array marker, which is exactly the serialization of an empty
//! snapshot, so a reader always sees the canonical form of some snapshot.
//! The mutual-exclusion lock around the slot, and the non-blocking publish
//! policy (skip the cycle when the lock is held), live with the runtime that
//! drives the worker; the slot itself is plain state.

use vstd::prelude::*;
use vstd::string::StringExecFns;
use crate::mood::Mood;
use crate::codec::spec_ser;

verus! {

pub struct SnapshotSlot {
    pub json: String,
}

impl SnapshotSlot {
    /// The slot before the first publish: the empty-array marker.
    pub fn empty() -> (s: SnapshotSlot)
        ensures
            s.json@ == spec_ser(Seq::<Mood>::empty()),
    {
        let json = String::from_str("[]");
        proof {
            reveal_strlit("[]");
            assert(json@ =~= spec_ser(Seq::<Mood>::empty()));
        }
        SnapshotSlot { json }
    }

    /// Overwrite the slot with a newly serialized snapshot.
    pub fn publish(&mut self, json: String)
        ensures
            final(self).json@ == json@,
    {
        self.json = json;
    }

    /// Copy out whatever is currently published.
    pub fn read(&self) -> (r: String)
        ensures
            r@ == self.json@,
    {
        self.json.clone()
    }
}

} // verus!
