//! Layout of the durable store's key space.
//!
//! Every key the library persists starts with a one-byte tag that names its
//! category: user data, the engine's term counter, a command's done marker,
//! or an acceptor slot's promise and accepted proposal. The tag keeps the
//! categories apart, so writing one kind of key never disturbs another.

use vstd::bytes::*;
use vstd::prelude::*;

verus! {

/// Tag of a user data key.
pub const TAG_USER: u8 = 0;

/// Tag of the engine's term counter key.
pub const TAG_TERM: u8 = 1;

/// Tag of a command done marker key.
pub const TAG_CMD: u8 = 2;

/// Tag of an acceptor slot's promised-ballot key.
pub const TAG_SLOT_PID: u8 = 3;

/// Tag of an acceptor slot's accepted-proposal key.
pub const TAG_SLOT_ACCEPTED: u8 = 4;

/// The store key that holds user key `k`'s value.
pub open spec fn spec_user_key(k: Seq<u8>) -> Seq<u8> {
    seq![TAG_USER] + k
}

/// The store key that holds the engine's term counter.
pub open spec fn spec_term_key() -> Seq<u8> {
    seq![TAG_TERM]
}

/// The store key that marks command `id` as done.
pub open spec fn spec_cmd_key(id: u64) -> Seq<u8> {
    seq![TAG_CMD] + spec_u64_to_le_bytes(id)
}

/// The store key that holds slot `slot`'s promised ballot.
pub open spec fn spec_slot_pid_key(slot: u64) -> Seq<u8> {
    seq![TAG_SLOT_PID] + spec_u64_to_le_bytes(slot)
}

/// The store key that holds slot `slot`'s accepted proposal.
pub open spec fn spec_slot_accepted_key(slot: u64) -> Seq<u8> {
    seq![TAG_SLOT_ACCEPTED] + spec_u64_to_le_bytes(slot)
}

fn tagged_key(tag: u8, payload: &[u8]) -> (r: Vec<u8>)
    ensures
        r@ == seq![tag] + payload@,
{
    let mut v: Vec<u8> = Vec::new();
    v.push(tag);
    let mut i: usize = 0;
    while i < payload.len()
        invariant
            i <= payload.len(),
            v@ == seq![tag] + payload@.take(i as int),
        decreases payload.len() - i,
    {
        v.push(payload[i]);
        i = i + 1;
        proof {
            assert(v@ == seq![tag] + payload@.take(i as int));
        }
    }
    proof {
        assert(payload@.take(payload@.len() as int) == payload@);
    }
    v
}

fn tagged_u64_key(tag: u8, x: u64) -> (r: Vec<u8>)
    ensures
        r@ == seq![tag] + spec_u64_to_le_bytes(x),
{
    let bytes = u64_to_le_bytes(x);
    tagged_key(tag, bytes.as_slice())
}

/// Builds the store key of user key `k`.
pub fn user_key_of(k: &[u8]) -> (r: Vec<u8>)
    ensures
        r@ == spec_user_key(k@),
{
    tagged_key(TAG_USER, k)
}

/// Builds the store key of the term counter.
pub fn term_key() -> (r: Vec<u8>)
    ensures
        r@ == spec_term_key(),
{
    let mut v: Vec<u8> = Vec::new();
    v.push(TAG_TERM);
    v
}

/// Builds the store key of command `id`'s done marker.
pub fn cmd_key(id: u64) -> (r: Vec<u8>)
    ensures
        r@ == spec_cmd_key(id),
{
    tagged_u64_key(TAG_CMD, id)
}

/// Builds the store key of slot `slot`'s promised ballot.
pub fn slot_pid_key(slot: u64) -> (r: Vec<u8>)
    ensures
        r@ == spec_slot_pid_key(slot),
{
    tagged_u64_key(TAG_SLOT_PID, slot)
}

/// Builds the store key of slot `slot`'s accepted proposal.
pub fn slot_accepted_key(slot: u64) -> (r: Vec<u8>)
    ensures
        r@ == spec_slot_accepted_key(slot),
{
    tagged_u64_key(TAG_SLOT_ACCEPTED, slot)
}

/// Two byte strings that differ in their first byte differ.
pub proof fn lemma_first_byte_ne(x: Seq<u8>, y: Seq<u8>)
    requires
        x.len() > 0,
        y.len() > 0,
        x[0] != y[0],
    ensures
        x != y,
{
}

/// Stripping a common leading tag from equal strings leaves equal payloads.
pub proof fn lemma_tag_strip(t: u8, x: Seq<u8>, y: Seq<u8>)
    requires
        seq![t] + x == seq![t] + y,
    ensures
        x == y,
{
    assert(x.len() == y.len()) by {
        assert((seq![t] + x).len() == 1 + x.len());
        assert((seq![t] + y).len() == 1 + y.len());
    }
    assert(x =~= y) by {
        assert forall|i: int| 0 <= i < x.len() implies x[i] == y[i] by {
            assert((seq![t] + x)[i + 1] == x[i]);
            assert((seq![t] + y)[i + 1] == y[i]);
        }
    }
}

/// Distinct `u64` payloads under one tag build distinct keys.
pub proof fn lemma_tagged_u64_injective(t: u8, a: u64, b: u64)
    requires
        seq![t] + spec_u64_to_le_bytes(a) == seq![t] + spec_u64_to_le_bytes(b),
    ensures
        a == b,
{
    lemma_tag_strip(t, spec_u64_to_le_bytes(a), spec_u64_to_le_bytes(b));
    lemma_auto_spec_u64_to_from_le_bytes();
}

/// Distinct user keys build distinct store keys.
pub proof fn lemma_user_key_injective(k1: Seq<u8>, k2: Seq<u8>)
    requires
        spec_user_key(k1) == spec_user_key(k2),
    ensures
        k1 == k2,
{
    lemma_tag_strip(TAG_USER, k1, k2);
}

/// Keys of different categories never collide: each starts with its own tag.
pub proof fn lemma_categories_distinct(k: Seq<u8>, id: u64, slot: u64)
    ensures
        spec_user_key(k) != spec_term_key(),
        spec_user_key(k) != spec_cmd_key(id),
        spec_user_key(k) != spec_slot_pid_key(slot),
        spec_user_key(k) != spec_slot_accepted_key(slot),
        spec_term_key() != spec_cmd_key(id),
        spec_term_key() != spec_slot_pid_key(slot),
        spec_term_key() != spec_slot_accepted_key(slot),
        spec_cmd_key(id) != spec_slot_pid_key(slot),
        spec_cmd_key(id) != spec_slot_accepted_key(slot),
        spec_slot_pid_key(slot) != spec_slot_accepted_key(slot),
{
    lemma_auto_spec_u64_to_from_le_bytes();
    assert(spec_user_key(k)[0] == TAG_USER);
    assert(spec_term_key()[0] == TAG_TERM);
    assert(spec_cmd_key(id)[0] == TAG_CMD);
    assert(spec_slot_pid_key(slot)[0] == TAG_SLOT_PID);
    assert(spec_slot_accepted_key(slot)[0] == TAG_SLOT_ACCEPTED);
}

} // verus!
