//! The acceptor role.
//!
//! An acceptor holds, per slot key, the highest ballot it has promised and
//! the proposal it last accepted, both persisted in its durable store under
//! the slot's keys. `prepare` advances the promise and always reports the
//! accepted proposal; `accept` stores a proposal only at exactly the promised
//! ballot and always answers with that ballot, so the caller can tell success
//! by comparing. A pluggable, seeded fault strategy can make any call fail
//! before it touches state; it is disabled by default.

use crate::codec::{
    decode_proposal, decode_u64, encode_proposal, encode_u64, lemma_proposal_roundtrip,
    spec_decode_proposal, spec_decode_u64, spec_encode_proposal,
};
use crate::faults::Faults;
use crate::keys::{
    lemma_first_byte_ne, lemma_tagged_u64_injective, slot_accepted_key, slot_pid_key,
    spec_slot_accepted_key, spec_slot_pid_key, TAG_SLOT_ACCEPTED, TAG_SLOT_PID,
};
use crate::proposal::Proposal;
use crate::store::{entries_map, entries_unique, Persistor};
use vstd::bytes::*;
use vstd::prelude::*;

verus! {

/// Why an acceptor call failed.
#[derive(Debug, PartialEq, Eq, Clone, Copy)]
pub enum AcceptorError {
    /// The injected fault tripped; the call did nothing. A real deployment
    /// reports a lost or failed call the same way.
    Unavailable,
    /// A persisted entry did not decode: the store is corrupt. Fatal.
    Corrupt,
}

/// The new promise after `prepare(pid)` against a previous promise: the
/// maximum of the two, a promise never moving backwards.
pub open spec fn promote(prev: Option<u64>, pid: u64) -> u64 {
    match prev {
        None => pid,
        Some(p) => if pid >= p {
            pid
        } else {
            p
        },
    }
}

/// Law (promise monotonicity): a prepare never moves a slot's promise
/// backwards — the stored ballot after `prepare(pid)` is at least the old
/// promise and at least `pid`.
pub proof fn lemma_promise_monotonic(prev: Option<u64>, pid: u64)
    ensures
        prev matches Some(p) ==> promote(prev, pid) >= p,
        promote(prev, pid) >= pid,
{
}

/// One passive consensus role, persisting per-slot promise and accept state.
pub struct Acceptor {
    store: Persistor,
    faults: Faults,
}

impl Acceptor {
    /// Whether the underlying store is well formed.
    pub closed spec fn wf(&self) -> bool {
        self.store.wf()
    }

    /// The acceptor's persistent state, as a key-to-bytes map.
    pub closed spec fn state(&self) -> Map<Seq<u8>, Seq<u8>> {
        self.store@
    }

    /// The configured fault rate, in thousandths.
    pub closed spec fn faults_rate(&self) -> u32 {
        self.faults.rate()
    }

    /// The ballot promised for a slot, if one is stored and decodes.
    pub closed spec fn slot_pid(&self, slot: u64) -> Option<u64> {
        slot_pid_in(self.state(), slot)
    }

    /// The accepted proposal for a slot, if one is stored and decodes.
    pub closed spec fn slot_accepted(&self, slot: u64) -> Option<(u64, Seq<u8>)> {
        slot_accepted_in(self.state(), slot)
    }

    /// Whether a slot's stored entries decode.
    pub closed spec fn slot_ok(&self, slot: u64) -> bool {
        slot_ok_in(self.state(), slot)
    }

    /// The slot-level state invariant: an accepted proposal never outranks
    /// the promise.
    pub open spec fn slot_inv(&self, slot: u64) -> bool {
        self.slot_accepted(slot) matches Some((b, _)) ==> self.slot_pid(slot) matches Some(p)
            && b <= p
    }

    /// Creates an acceptor with empty state and faults disabled.
    pub fn new() -> (a: Acceptor)
        ensures
            a.wf(),
            a.faults_rate() == 0,
            a.state() == Map::<Seq<u8>, Seq<u8>>::empty(),
            forall|s: u64| a.slot_pid(s) is None,
            forall|s: u64| a.slot_accepted(s) is None,
            forall|s: u64| a.slot_ok(s),
            forall|s: u64| a.slot_inv(s),
    {
        Acceptor { store: Persistor::new(), faults: Faults::off() }
    }

    /// Creates an acceptor with empty state and the given fault strategy.
    pub fn with_faults(faults: Faults) -> (a: Acceptor)
        ensures
            a.wf(),
            a.faults_rate() == faults.rate(),
            a.state() == Map::<Seq<u8>, Seq<u8>>::empty(),
            forall|s: u64| a.slot_pid(s) is None,
            forall|s: u64| a.slot_accepted(s) is None,
            forall|s: u64| a.slot_ok(s),
            forall|s: u64| a.slot_inv(s),
    {
        Acceptor { store: Persistor::new(), faults }
    }

    /// Rebuilds an acceptor from dumped entries, with faults disabled: the
    /// reloaded acceptor holds, per slot, exactly the promise and accepted
    /// proposal the entries persist, so promises survive crash and restart.
    pub fn from_entries(entries: &Vec<(Vec<u8>, Vec<u8>)>) -> (a: Acceptor)
        ensures
            a.wf(),
            a.faults_rate() == 0,
            a.state() == entries_map(entries@),
            forall|s: u64| #[trigger] a.slot_pid(s) == slot_pid_in(entries_map(entries@), s),
            forall|s: u64| #[trigger]
                a.slot_accepted(s) == slot_accepted_in(entries_map(entries@), s),
            forall|s: u64| #[trigger] a.slot_ok(s) == slot_ok_in(entries_map(entries@), s),
    {
        Acceptor { store: Persistor::from_entries(entries), faults: Faults::off() }
    }

    /// Copies the acceptor's persistent state out, for the embedding program
    /// to write to disk. The entries carry, per slot, exactly the acceptor's
    /// promise and accepted proposal, which `from_entries` restores.
    pub fn dump(&self) -> (r: Vec<(Vec<u8>, Vec<u8>)>)
        requires
            self.wf(),
        ensures
            entries_map(r@) == self.state(),
            entries_unique(r@),
            forall|s: u64| #[trigger] slot_pid_in(entries_map(r@), s) == self.slot_pid(s),
            forall|s: u64| #[trigger]
                slot_accepted_in(entries_map(r@), s) == self.slot_accepted(s),
            forall|s: u64| #[trigger] slot_ok_in(entries_map(r@), s) == self.slot_ok(s),
    {
        self.store.dump()
    }

    /// Reads the promised ballot for a slot, if one is stored and decodes.
    /// Callers use it to rule a protocol violation out before `accept`.
    pub fn promised(&self, slot: u64) -> (r: Option<u64>)
        requires
            self.wf(),
        ensures
            r == self.slot_pid(slot),
    {
        let pk = slot_pid_key(slot);
        match self.store.get(pk.as_slice()) {
            None => None,
            Some(v) => decode_u64(v.as_slice()),
        }
    }

    /// Handles `prepare(slot, pid)`: promises `pid` if it is not below the
    /// stored promise, and either way reports the accepted proposal.
    pub fn prepare(&mut self, slot: u64, pid: u64) -> (r: Result<Option<Proposal>, AcceptorError>)
        requires
            old(self).wf(),
        ensures
            final (self).wf(),
            final (self).faults_rate() == old(self).faults_rate(),
            r is Err ==> final (self).state() == old(self).state(),
            r is Err ==> forall|s2: u64| final (self).slot_pid(s2) == old(self).slot_pid(s2),
            r is Err ==> forall|s2: u64| final (self).slot_accepted(s2) == old(self).slot_accepted(
                s2,
            ),
            r is Err ==> forall|s2: u64| final (self).slot_ok(s2) == old(self).slot_ok(s2),
            r == Err::<Option<Proposal>, AcceptorError>(AcceptorError::Corrupt) ==> !old(
                self,
            ).slot_ok(slot),
            old(self).faults_rate() == 0 && old(self).slot_ok(slot) ==> r is Ok,
            old(self).faults_rate() == 0 && !old(self).slot_ok(slot) ==> r == Err::<
                Option<Proposal>,
                AcceptorError,
            >(AcceptorError::Corrupt),
            r is Ok ==> old(self).slot_ok(slot),
            r is Ok ==> final (self).state() == old(self).state().insert(
                spec_slot_pid_key(slot),
                spec_u64_to_le_bytes(promote(old(self).slot_pid(slot), pid)),
            ),
            r is Ok ==> final (self).slot_pid(slot) == Some(promote(old(self).slot_pid(slot), pid)),
            r is Ok ==> forall|s2: u64|
                s2 != slot ==> final (self).slot_pid(s2) == old(self).slot_pid(s2),
            r is Ok ==> forall|s2: u64| final (self).slot_accepted(s2) == old(self).slot_accepted(
                s2,
            ),
            r is Ok ==> forall|s2: u64| final (self).slot_ok(s2) == old(self).slot_ok(s2),
            r matches Ok(acc) ==> match acc {
                Some(p) => old(self).slot_accepted(slot) == Some((p.id, p.value@)),
                None => old(self).slot_accepted(slot) is None,
            },
            forall|s2: u64| old(self).slot_inv(s2) ==> final (self).slot_inv(s2),
    {
        if self.faults.trip() {
            return Err(AcceptorError::Unavailable);
        }
        let ak = slot_accepted_key(slot);
        let accepted: Option<Proposal> = match self.store.get(ak.as_slice()) {
            None => None,
            Some(v) => match decode_proposal(v.as_slice()) {
                Some(p) => Some(p),
                None => {
                    return Err(AcceptorError::Corrupt);
                },
            },
        };
        let pk = slot_pid_key(slot);
        let prev: Option<u64> = match self.store.get(pk.as_slice()) {
            None => None,
            Some(v) => match decode_u64(v.as_slice()) {
                Some(x) => Some(x),
                None => {
                    return Err(AcceptorError::Corrupt);
                },
            },
        };
        let ghost st0 = self.store@;
        let newp = match prev {
            None => pid,
            Some(p) => if pid >= p {
                pid
            } else {
                p
            },
        };
        if prev.is_none() || pid >= prev.unwrap() {
            self.store.set(pk, encode_u64(newp));
        } else {
            proof {
                lemma_auto_spec_u64_to_from_le_bytes();
                assert(st0[spec_slot_pid_key(slot)] == spec_u64_to_le_bytes(newp));
                assert(st0.insert(spec_slot_pid_key(slot), spec_u64_to_le_bytes(newp)) =~= st0);
            }
        }
        proof {
            lemma_auto_spec_u64_to_from_le_bytes();
            self.lemma_pid_write_frame(st0, slot, newp);
        }
        Ok(accepted)
    }

    /// Handles `accept(slot, pid, value)`: stores the proposal only at
    /// exactly the promised ballot, and always answers with that ballot.
    ///
    /// A call without a prior promise, or above the promise, is a protocol
    /// violation the system treats as fatal; callers rule it out.
    pub fn accept(&mut self, slot: u64, pid: u64, value: Vec<u8>) -> (r: Result<
        u64,
        AcceptorError,
    >)
        requires
            old(self).wf(),
            old(self).slot_pid(slot) is Some,
            pid <= old(self).slot_pid(slot).unwrap(),
        ensures
            final (self).wf(),
            final (self).faults_rate() == old(self).faults_rate(),
            r is Err ==> final (self).state() == old(self).state() && r == Err::<
                u64,
                AcceptorError,
            >(AcceptorError::Unavailable),
            old(self).faults_rate() == 0 ==> r is Ok,
            r matches Ok(v) ==> v == old(self).slot_pid(slot).unwrap(),
            r is Ok && pid == old(self).slot_pid(slot).unwrap() ==> {
                &&& final (self).state() == old(self).state().insert(
                    spec_slot_accepted_key(slot),
                    spec_encode_proposal(pid, value@),
                )
                &&& final (self).slot_accepted(slot) == Some((pid, value@))
            },
            r is Ok && pid != old(self).slot_pid(slot).unwrap() ==> final (self).state() == old(
                self,
            ).state(),
            !(r is Ok && pid == old(self).slot_pid(slot).unwrap()) ==> final (self).slot_accepted(
                slot,
            ) == old(self).slot_accepted(slot),
            forall|s2: u64| final (self).slot_pid(s2) == old(self).slot_pid(s2),
            forall|s2: u64|
                s2 != slot ==> final (self).slot_accepted(s2) == old(self).slot_accepted(s2),
            forall|s2: u64| old(self).slot_ok(s2) ==> final (self).slot_ok(s2),
            forall|s2: u64| old(self).slot_inv(s2) ==> final (self).slot_inv(s2),
    {
        if self.faults.trip() {
            return Err(AcceptorError::Unavailable);
        }
        let pk = slot_pid_key(slot);
        let prev: u64 = match self.store.get(pk.as_slice()) {
            None => {
                proof {
                    assert(false);
                }
                0
            },
            Some(v) => match decode_u64(v.as_slice()) {
                Some(x) => x,
                None => {
                    proof {
                        assert(false);
                    }
                    0
                },
            },
        };
        if pid == prev {
            let ghost st0 = self.store@;
            let ak = slot_accepted_key(slot);
            let p = Proposal { id: pid, value };
            let bytes = encode_proposal(&p);
            self.store.set(ak, bytes);
            proof {
                lemma_proposal_roundtrip(pid, p.value@);
                self.lemma_accepted_write_frame(st0, slot, pid, p.value@);
            }
        }
        Ok(prev)
    }

    /// Writing a slot's promise key changes no other slot-level fact.
    proof fn lemma_pid_write_frame(&self, st0: Map<Seq<u8>, Seq<u8>>, slot: u64, newp: u64)
        requires
            self.state() == st0.insert(spec_slot_pid_key(slot), spec_u64_to_le_bytes(newp)),
        ensures
            self.slot_pid(slot) == Some(newp),
            forall|s2: u64|
                s2 != slot ==> #[trigger] self.slot_pid(s2) == slot_pid_in(st0, s2),
            forall|s2: u64| #[trigger] self.slot_accepted(s2) == slot_accepted_in(st0, s2),
            forall|s2: u64|
                s2 != slot ==> (#[trigger] self.slot_ok(s2) == slot_ok_in(st0, s2)),
            slot_ok_in(st0, slot) ==> self.slot_ok(slot),
    {
        lemma_auto_spec_u64_to_from_le_bytes();
        assert forall|s2: u64| s2 != slot implies #[trigger] self.slot_pid(s2) == slot_pid_in(
            st0,
            s2,
        ) by {
            if spec_slot_pid_key(s2) == spec_slot_pid_key(slot) {
                lemma_tagged_u64_injective(TAG_SLOT_PID, s2, slot);
            }
        }
        assert forall|s2: u64| #[trigger] self.slot_accepted(s2) == slot_accepted_in(st0, s2) by {
            assert(spec_slot_accepted_key(s2) != spec_slot_pid_key(slot)) by {
                assert(spec_slot_accepted_key(s2)[0] == TAG_SLOT_ACCEPTED);
                assert(spec_slot_pid_key(slot)[0] == TAG_SLOT_PID);
                lemma_first_byte_ne(spec_slot_accepted_key(s2), spec_slot_pid_key(slot));
            }
        }
        assert forall|s2: u64| s2 != slot implies (#[trigger] self.slot_ok(s2) == slot_ok_in(
            st0,
            s2,
        )) by {
            if spec_slot_pid_key(s2) == spec_slot_pid_key(slot) {
                lemma_tagged_u64_injective(TAG_SLOT_PID, s2, slot);
            }
            assert(spec_slot_accepted_key(s2) != spec_slot_pid_key(slot)) by {
                assert(spec_slot_accepted_key(s2)[0] == TAG_SLOT_ACCEPTED);
                assert(spec_slot_pid_key(slot)[0] == TAG_SLOT_PID);
                lemma_first_byte_ne(spec_slot_accepted_key(s2), spec_slot_pid_key(slot));
            }
        }
        assert(spec_slot_accepted_key(slot) != spec_slot_pid_key(slot)) by {
            lemma_first_byte_ne(spec_slot_accepted_key(slot), spec_slot_pid_key(slot));
        }
    }

    /// Writing a slot's accepted key changes no other slot-level fact.
    proof fn lemma_accepted_write_frame(
        &self,
        st0: Map<Seq<u8>, Seq<u8>>,
        slot: u64,
        pid: u64,
        value: Seq<u8>,
    )
        requires
            self.state() == st0.insert(spec_slot_accepted_key(slot), spec_encode_proposal(pid, value)),
        ensures
            self.slot_accepted(slot) == Some((pid, value)),
            forall|s2: u64|
                s2 != slot ==> #[trigger] self.slot_accepted(s2) == slot_accepted_in(st0, s2),
            forall|s2: u64| #[trigger] self.slot_pid(s2) == slot_pid_in(st0, s2),
            forall|s2: u64|
                s2 != slot ==> (#[trigger] self.slot_ok(s2) == slot_ok_in(st0, s2)),
            slot_ok_in(st0, slot) ==> self.slot_ok(slot),
    {
        lemma_proposal_roundtrip(pid, value);
        assert forall|s2: u64| s2 != slot implies #[trigger] self.slot_accepted(s2)
            == slot_accepted_in(st0, s2) by {
            if spec_slot_accepted_key(s2) == spec_slot_accepted_key(slot) {
                lemma_tagged_u64_injective(TAG_SLOT_ACCEPTED, s2, slot);
            }
        }
        assert forall|s2: u64| #[trigger] self.slot_pid(s2) == slot_pid_in(st0, s2) by {
            assert(spec_slot_pid_key(s2) != spec_slot_accepted_key(slot)) by {
                assert(spec_slot_pid_key(s2)[0] == TAG_SLOT_PID);
                assert(spec_slot_accepted_key(slot)[0] == TAG_SLOT_ACCEPTED);
                lemma_first_byte_ne(spec_slot_pid_key(s2), spec_slot_accepted_key(slot));
            }
        }
        assert forall|s2: u64| s2 != slot implies (#[trigger] self.slot_ok(s2) == slot_ok_in(
            st0,
            s2,
        )) by {
            if spec_slot_accepted_key(s2) == spec_slot_accepted_key(slot) {
                lemma_tagged_u64_injective(TAG_SLOT_ACCEPTED, s2, slot);
            }
            assert(spec_slot_pid_key(s2) != spec_slot_accepted_key(slot)) by {
                assert(spec_slot_pid_key(s2)[0] == TAG_SLOT_PID);
                assert(spec_slot_accepted_key(slot)[0] == TAG_SLOT_ACCEPTED);
                lemma_first_byte_ne(spec_slot_pid_key(s2), spec_slot_accepted_key(slot));
            }
        }
        assert(spec_slot_pid_key(slot) != spec_slot_accepted_key(slot)) by {
            lemma_first_byte_ne(spec_slot_pid_key(slot), spec_slot_accepted_key(slot));
        }
    }
}

/// The promised ballot a raw state map holds for a slot.
pub open spec fn slot_pid_in(m: Map<Seq<u8>, Seq<u8>>, slot: u64) -> Option<u64> {
    if m.contains_key(spec_slot_pid_key(slot)) {
        spec_decode_u64(m[spec_slot_pid_key(slot)])
    } else {
        None
    }
}

/// The accepted proposal a raw state map holds for a slot.
pub open spec fn slot_accepted_in(m: Map<Seq<u8>, Seq<u8>>, slot: u64) -> Option<(u64, Seq<u8>)> {
    if m.contains_key(spec_slot_accepted_key(slot)) {
        spec_decode_proposal(m[spec_slot_accepted_key(slot)])
    } else {
        None
    }
}

/// Whether a raw state map's entries for a slot decode.
pub open spec fn slot_ok_in(m: Map<Seq<u8>, Seq<u8>>, slot: u64) -> bool {
    &&& m.contains_key(spec_slot_pid_key(slot)) ==> spec_decode_u64(
        m[spec_slot_pid_key(slot)],
    ) is Some
    &&& m.contains_key(spec_slot_accepted_key(slot)) ==> spec_decode_proposal(
        m[spec_slot_accepted_key(slot)],
    ) is Some
}

} // verus!
