//! Ballot numbers.
//!
//! A ballot (`pid`) packs a proposer's retry round and its node id into one
//! `u64`, ordered first by round and then by node id. Packing keeps ballots
//! strictly increasing per node and globally unique: two proposers never share
//! a ballot, and a node's later rounds always outrank its earlier ones.

use vstd::prelude::*;

verus! {

/// The weight of the round half of a packed ballot.
pub const ROUND_WEIGHT: u64 = 0x1_0000_0000;

/// The ballot that round `round` of node `node` uses.
pub open spec fn spec_pack_pid(round: u32, node: u32) -> u64 {
    (round as int * ROUND_WEIGHT as int + node as int) as u64
}

/// The round half of a packed ballot.
pub open spec fn spec_pid_round(pid: u64) -> int {
    pid as int / ROUND_WEIGHT as int
}

/// The node half of a packed ballot.
pub open spec fn spec_pid_node(pid: u64) -> int {
    pid as int % ROUND_WEIGHT as int
}

/// Packs a round counter and a node id into one ballot.
pub fn pack_pid(round: u32, node: u32) -> (pid: u64)
    ensures
        pid == spec_pack_pid(round, node),
{
    proof {
        lemma_pack_bounds(round, node);
    }
    (round as u64) * ROUND_WEIGHT + (node as u64)
}

/// A packed ballot fits in a `u64`, and unpacking recovers both halves.
pub proof fn lemma_pack_bounds(round: u32, node: u32)
    ensures
        round as int * ROUND_WEIGHT as int + node as int <= u64::MAX as int,
        spec_pid_round(spec_pack_pid(round, node)) == round as int,
        spec_pid_node(spec_pack_pid(round, node)) == node as int,
{
    let r = round as int;
    let n = node as int;
    let w = ROUND_WEIGHT as int;
    assert(r * w <= 0xFFFF_FFFF * w) by (nonlinear_arith)
        requires
            r <= 0xFFFF_FFFF,
            w >= 0,
    ;
    assert((r * w + n) / w == r && (r * w + n) % w == n) by (nonlinear_arith)
        requires
            0 <= n < w,
            0 <= r,
    ;
}

/// Distinct (round, node) pairs pack to distinct ballots.
pub proof fn lemma_pack_injective(r1: u32, n1: u32, r2: u32, n2: u32)
    requires
        spec_pack_pid(r1, n1) == spec_pack_pid(r2, n2),
    ensures
        r1 == r2,
        n1 == n2,
{
    lemma_pack_bounds(r1, n1);
    lemma_pack_bounds(r2, n2);
}

/// A strictly later round outranks any ballot of an earlier round,
/// whatever the node ids.
pub proof fn lemma_pack_monotonic(r1: u32, n1: u32, r2: u32, n2: u32)
    requires
        r1 < r2,
    ensures
        spec_pack_pid(r1, n1) < spec_pack_pid(r2, n2),
{
    lemma_pack_bounds(r1, n1);
    lemma_pack_bounds(r2, n2);
    let w = ROUND_WEIGHT as int;
    assert(r1 as int * w + w <= r2 as int * w) by (nonlinear_arith)
        requires
            (r1 as int) < r2 as int,
            w >= 0,
    ;
}

} // verus!
