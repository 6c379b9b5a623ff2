//! The proposer role.
//!
//! A proposer drives rounds of the promise/accept handshake. It owns only its
//! node id and a retry-round counter; each new round takes a fresh ballot
//! that packs the incremented counter with the node id, so a node's ballots
//! strictly increase and never collide with another node's. The choice of the
//! value to propose — adopt the highest-ballot proposal learned during the
//! prepare phase, else keep the caller's value — is a pure function here;
//! running whole rounds against a cluster lives in `cluster`.

use crate::ballot::spec_pack_pid;
use crate::proposal::Proposal;
use crate::store::clone_bytes;
use vstd::prelude::*;

verus! {

/// The majority threshold of a cluster of `n` acceptors: more than half.
pub open spec fn spec_majority(n: int) -> int {
    n / 2 + 1
}

/// Computes the majority threshold of a full cluster of `n` acceptors.
pub fn majority(n: usize) -> (r: usize)
    ensures
        r as int == spec_majority(n as int),
{
    proof {
        assert(n / 2 + 1 <= usize::MAX);
    }
    n / 2 + 1
}

/// The active consensus role: drives rounds until a value is chosen.
pub struct Proposer {
    /// The node id, unique per proposer in a cluster.
    pub id: u32,
    /// How many rounds this proposer has started, over all slots.
    pub round: u32,
}

impl Proposer {
    /// Creates a proposer for node `id` that has started no round yet.
    pub fn new(id: u32) -> (p: Proposer)
        ensures
            p.id == id,
            p.round == 0,
    {
        Proposer { id, round: 0 }
    }

    /// Starts a round: bumps the retry counter and returns the round's
    /// ballot, which outranks every earlier ballot of this node.
    pub fn begin_round(&mut self) -> (pid: u64)
        requires
            old(self).round < u32::MAX,
        ensures
            final (self).id == old(self).id,
            final (self).round == old(self).round + 1,
            pid == spec_pack_pid(final (self).round, final (self).id),
    {
        self.round = self.round + 1;
        crate::ballot::pack_pid(self.round, self.id)
    }
}

/// Picks the value to propose: the value of a highest-ballot proposal among
/// those learned in the prepare phase, or the caller's value if none was.
pub fn select_value(responses: &Vec<Proposal>, fallback: &Vec<u8>) -> (r: Vec<u8>)
    ensures
        responses@.len() == 0 ==> r@ == fallback@,
        responses@.len() > 0 ==> exists|i: int|
            0 <= i < responses@.len() && r@ == responses@[i].value@ && (forall|j: int|
                0 <= j < responses@.len() ==> responses@[j].id <= responses@[i].id),
{
    if responses.len() == 0 {
        return clone_bytes(fallback);
    }
    let mut best: usize = 0;
    let mut k: usize = 1;
    while k < responses.len()
        invariant
            responses@.len() > 0,
            best < k,
            k <= responses@.len(),
            forall|j: int| 0 <= j < k ==> responses@[j].id <= responses@[best as int].id,
        decreases responses@.len() - k,
    {
        if responses[k].id >= responses[best].id {
            best = k;
        }
        k = k + 1;
    }
    clone_bytes(&responses[best].value)
}

} // verus!
