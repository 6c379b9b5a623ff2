//! Byte encodings of the values the library persists and proposes.
//!
//! Integers travel as eight little-endian bytes; a proposal is its ballot
//! followed by the raw value bytes. Decoding is total: malformed bytes come
//! back as `None`, which callers surface as a corruption error rather than
//! hide.

use crate::proposal::Proposal;
use vstd::bytes::*;
use vstd::prelude::*;
use vstd::slice::*;

verus! {

/// What eight little-endian bytes mean; `None` for any other length.
pub open spec fn spec_decode_u64(s: Seq<u8>) -> Option<u64> {
    if s.len() == 8 {
        Some(spec_u64_from_le_bytes(s))
    } else {
        None
    }
}

/// Encodes an integer as eight little-endian bytes.
pub fn encode_u64(x: u64) -> (r: Vec<u8>)
    ensures
        r@ == spec_u64_to_le_bytes(x),
        spec_decode_u64(r@) == Some(x),
{
    proof {
        lemma_auto_spec_u64_to_from_le_bytes();
    }
    u64_to_le_bytes(x)
}

/// Decodes eight little-endian bytes back into an integer.
pub fn decode_u64(s: &[u8]) -> (r: Option<u64>)
    ensures
        r == spec_decode_u64(s@),
{
    if s.len() == 8 {
        Some(u64_from_le_bytes(s))
    } else {
        None
    }
}

/// Encoding and decoding an integer round-trips, and the encoding is
/// injective.
pub proof fn lemma_u64_roundtrip(x: u64, y: u64)
    ensures
        spec_decode_u64(spec_u64_to_le_bytes(x)) == Some(x),
        spec_u64_to_le_bytes(x) == spec_u64_to_le_bytes(y) ==> x == y,
{
    lemma_auto_spec_u64_to_from_le_bytes();
}

/// The bytes that a proposal travels and persists as: the ballot, then the
/// value.
pub open spec fn spec_encode_proposal(id: u64, value: Seq<u8>) -> Seq<u8> {
    spec_u64_to_le_bytes(id) + value
}

/// What proposal bytes mean; `None` if too short to hold a ballot.
pub open spec fn spec_decode_proposal(s: Seq<u8>) -> Option<(u64, Seq<u8>)> {
    if s.len() >= 8 {
        Some((spec_u64_from_le_bytes(s.take(8)), s.skip(8)))
    } else {
        None
    }
}

/// Encoding then decoding a proposal returns it unchanged.
pub proof fn lemma_proposal_roundtrip(id: u64, value: Seq<u8>)
    ensures
        spec_decode_proposal(spec_encode_proposal(id, value)) == Some((id, value)),
{
    lemma_auto_spec_u64_to_from_le_bytes();
    let s = spec_encode_proposal(id, value);
    assert(s.take(8) =~= spec_u64_to_le_bytes(id));
    assert(s.skip(8) =~= value);
}

/// Encodes a proposal.
pub fn encode_proposal(p: &Proposal) -> (r: Vec<u8>)
    ensures
        r@ == spec_encode_proposal(p.id, p.value@),
{
    let mut r = u64_to_le_bytes(p.id);
    let mut v = crate::store::clone_bytes(&p.value);
    r.append(&mut v);
    r
}

/// Decodes a proposal, or reports malformed bytes.
pub fn decode_proposal(s: &[u8]) -> (r: Option<Proposal>)
    ensures
        match r {
            Some(p) => spec_decode_proposal(s@) == Some((p.id, p.value@)),
            None => spec_decode_proposal(s@) is None,
        },
{
    if s.len() < 8 {
        return None;
    }
    let head = slice_subrange(s, 0, 8);
    let id = u64_from_le_bytes(head);
    let tail = slice_subrange(s, 8, s.len());
    let value = slice_to_vec(tail);
    proof {
        assert(s@.take(8) =~= s@.subrange(0, 8));
        assert(s@.skip(8) =~= s@.subrange(8, s@.len() as int));
    }
    Some(Proposal { id, value })
}

} // verus!
