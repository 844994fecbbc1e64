use vstd::prelude::*;

verus! {

/// Connection identifier, assigned monotonically by the hub on accept and
/// never reused for the hub's lifetime.
#[derive(Clone, Copy, PartialEq, Eq, Hash, Debug, Structural)]
pub struct InternalId(pub u64);

impl InternalId {
    pub fn new(id: u64) -> (r: InternalId)
        ensures
            r.0 == id,
    {
        InternalId(id)
    }
}

} // verus!
