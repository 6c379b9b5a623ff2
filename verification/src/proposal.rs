//! Proposals.

use vstd::prelude::*;

verus! {

/// A value tagged with the ballot that proposed it. A proposer creates one
/// per round; an acceptor persists the one it accepts.
#[derive(Debug, PartialEq, Eq)]
pub struct Proposal {
    /// The ballot under which the value was proposed.
    pub id: u64,
    /// The proposed value, as raw bytes.
    pub value: Vec<u8>,
}

impl Proposal {
    /// Copies a proposal.
    pub fn duplicate(&self) -> (r: Proposal)
        ensures
            r.id == self.id,
            r.value@ == self.value@,
    {
        Proposal { id: self.id, value: crate::store::clone_bytes(&self.value) }
    }
}

} // verus!
