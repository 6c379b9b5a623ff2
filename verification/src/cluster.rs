//! A cluster of acceptors, and whole protocol rounds against it.
//!
//! `Cluster` owns the acceptors and a ghost history of every accept phase
//! ever started: per slot, per ballot, the value proposed and the set of
//! acceptors that accepted it. The history lets the safety argument be stated
//! and proved: once a majority has accepted a value for a slot, every later
//! round adopts that value, so at most one value is ever chosen per slot
//! (`lemma_chosen_agreement`). Faults only shrink the set of acceptors a
//! round reaches, so the argument covers faulty runs unchanged.

use crate::acceptor::{promote, Acceptor, AcceptorError};
use crate::ballot::{lemma_pack_bounds, spec_pack_pid, spec_pid_node, spec_pid_round};
use crate::faults::Faults;
use crate::proposal::Proposal;
use crate::proposer::{majority, select_value, spec_majority, Proposer};
use crate::store::clone_bytes;
use vstd::prelude::*;
use vstd::set_lib::{lemma_int_range, lemma_len_subset, lemma_set_disjoint_lens, set_int_range};

verus! {

/// One accept phase's record: the value proposed at a ballot, and which
/// acceptors accepted it.
pub ghost struct VoteInfo {
    /// The value sent in the accept phase of this ballot's round.
    pub value: Seq<u8>,
    /// Indices of the acceptors that accepted it.
    pub voters: Set<int>,
}

/// Static construction parameters of a cluster, shared by all its users.
pub struct ClusterInfo {
    /// How many acceptors the cluster runs.
    pub acceptor_count: usize,
    /// Per-call failure rate of each acceptor, in thousandths; zero disables
    /// fault injection.
    pub fault_permille: u32,
    /// Seed of the fault strategies, so that faulty runs can be replayed.
    pub fault_seed: u64,
}

/// A fixed cluster of acceptors, with the ghost history of its rounds.
pub struct Cluster {
    accs: Vec<Acceptor>,
    hist: Ghost<Map<u64, Map<u64, VoteInfo>>>,
}

impl Cluster {
    /// The number of acceptors.
    pub closed spec fn n(&self) -> int {
        self.accs@.len() as int
    }

    /// The recorded accept phases of a slot, by ballot.
    pub closed spec fn votes(&self, slot: u64) -> Map<u64, VoteInfo> {
        if self.hist@.contains_key(slot) {
            self.hist@[slot]
        } else {
            Map::empty()
        }
    }

    /// Acceptor `i`'s promised ballot for a slot.
    pub closed spec fn acc_pid(&self, i: int, slot: u64) -> Option<u64> {
        self.accs@[i].slot_pid(slot)
    }

    /// Acceptor `i`'s accepted proposal for a slot.
    pub closed spec fn acc_accepted(&self, i: int, slot: u64) -> Option<(u64, Seq<u8>)> {
        self.accs@[i].slot_accepted(slot)
    }

    /// Acceptor `i`'s per-call failure rate, in thousandths.
    pub closed spec fn acc_fault_rate(&self, i: int) -> u32 {
        self.accs@[i].faults_rate()
    }

    /// Whether every acceptor call is fault-free.
    pub closed spec fn faults_off(&self) -> bool {
        forall|i: int| 0 <= i < self.n() ==> (#[trigger] self.accs@[i]).faults_rate() == 0
    }

    /// Whether no acceptor has promised past ballot `b` for a slot.
    pub open spec fn pids_at_most(&self, slot: u64, b: u64) -> bool {
        forall|i: int|
            0 <= i < self.n() ==> match #[trigger] self.acc_pid(i, slot) {
                Some(p) => p <= b,
                None => true,
            }
    }

    /// The acceptors that have promised at least ballot `b` for a slot.
    pub closed spec fn promisers(&self, slot: u64, b: u64) -> Set<int> {
        Set::new(
            |i: int|
                0 <= i < self.n() && (self.accs@[i].slot_pid(slot) matches Some(p) && p >= b),
        )
    }

    /// Whether ballot `b`'s proposal for a slot has been accepted by a
    /// majority: the slot's value is decided at `b`.
    pub closed spec fn chosen_at(&self, slot: u64, b: u64) -> bool {
        &&& self.votes(slot).contains_key(b)
        &&& self.votes(slot)[b].voters.len() >= spec_majority(self.n())
    }

    /// The value ballot `b` proposed for a slot.
    pub closed spec fn vote_value(&self, slot: u64, b: u64) -> Seq<u8> {
        self.votes(slot)[b].value
    }

    /// Whether `value` is chosen for a slot at some ballot.
    pub closed spec fn chosen(&self, slot: u64, value: Seq<u8>) -> bool {
        exists|b: u64| self.chosen_at(slot, b) && self.vote_value(slot, b) == value
    }

    /// Every acceptor is well formed, decodable, and obeys the slot
    /// invariant (accepted ballot at most the promise).
    pub closed spec fn accs_ok(&self) -> bool {
        forall|i: int, s: u64|
            0 <= i < self.n() ==> ((#[trigger] self.accs@[i].slot_ok(s)) && self.accs@[i].wf()
                && self.accs@[i].slot_inv(s))
    }

    /// The vote-history invariants of one slot.
    pub closed spec fn inv_votes(&self, s: u64) -> bool {
        let v = self.votes(s);
        // an acceptor's accepted state is among the recorded votes
        &&& forall|i: int|
            0 <= i < self.n() ==> match #[trigger] self.acc_accepted(i, s) {
                Some((b, val)) => v.contains_key(b) && v[b].value == val && v[b].voters.contains(
                    i,
                ),
                None => true,
            }
        // a voter promised at least its ballot, and accepted at least it
        &&& forall|b: u64, i: int|
            v.contains_key(b) && #[trigger] v[b].voters.contains(i) ==> {
                &&& 0 <= i < self.n()
                &&& (self.acc_pid(i, s) matches Some(p) && p >= b)
                &&& (self.acc_accepted(i, s) matches Some((b2, _)) && b2 >= b)
            }
        // voter sets are finite
        &&& forall|b: u64| #[trigger] v.contains_key(b) ==> v[b].voters.finite()
        // every accept phase had a majority of promisers at its ballot
        &&& forall|b: u64|
            #[trigger] v.contains_key(b) ==> self.promisers(s, b).len() >= spec_majority(self.n())
        // vote-value safety: a ballot above a chosen one proposes its value
        &&& forall|b: u64, b2: u64|
            #![trigger v.contains_key(b), v.contains_key(b2)]
            v.contains_key(b) && v.contains_key(b2) && b2 < b && v[b2].voters.len()
                >= spec_majority(self.n()) ==> v[b].value == v[b2].value
    }

    /// The cluster invariant: established by the constructor, preserved by
    /// every round.
    pub closed spec fn inv(&self) -> bool {
        &&& self.n() >= 1
        &&& self.accs_ok()
        &&& forall|s: u64| #[trigger] self.inv_votes(s)
    }

    /// Builds a cluster of fresh acceptors.
    pub fn new(info: &ClusterInfo) -> (c: Cluster)
        requires
            info.acceptor_count >= 1,
            info.fault_permille <= 1000,
        ensures
            c.inv(),
            c.n() == info.acceptor_count,
            forall|s: u64, b: u64| !(#[trigger] c.votes(s).contains_key(b)),
            forall|i: int, s: u64| 0 <= i < c.n() ==> (#[trigger] c.acc_pid(i, s)) is None,
            forall|i: int, s: u64| 0 <= i < c.n() ==> (#[trigger] c.acc_accepted(i, s)) is None,
            forall|i: int| 0 <= i < c.n() ==> (#[trigger] c.acc_fault_rate(i)) == info.fault_permille,
            info.fault_permille == 0 ==> c.faults_off(),
    {
        let mut accs: Vec<Acceptor> = Vec::new();
        let mut i: usize = 0;
        while i < info.acceptor_count
            invariant
                i <= info.acceptor_count,
                info.fault_permille <= 1000,
                accs@.len() == i,
                forall|k: int, s: u64| 0 <= k < i ==> (#[trigger] accs@[k].slot_ok(s)),
                forall|k: int, s: u64| 0 <= k < i ==> (#[trigger] accs@[k].slot_pid(s)) is None,
                forall|k: int, s: u64|
                    0 <= k < i ==> (#[trigger] accs@[k].slot_accepted(s)) is None,
                forall|k: int, s: u64| 0 <= k < i ==> (#[trigger] accs@[k].slot_inv(s)),
                forall|k: int| 0 <= k < i ==> (#[trigger] accs@[k]).wf(),
                forall|k: int|
                    0 <= k < i ==> (#[trigger] accs@[k].faults_rate()) == info.fault_permille,
            decreases info.acceptor_count - i,
        {
            let f = if info.fault_permille == 0 {
                Faults::off()
            } else {
                Faults::with_rate(info.fault_permille, info.fault_seed.wrapping_add(i as u64))
            };
            accs.push(Acceptor::with_faults(f));
            i = i + 1;
        }
        let c = Cluster { accs, hist: Ghost(Map::empty()) };
        proof {
            assert(c.accs_ok());
            assert forall|s: u64| #[trigger] c.inv_votes(s) by {
                assert(c.votes(s) =~= Map::<u64, VoteInfo>::empty());
                assert forall|i2: int| 0 <= i2 < c.n() implies (#[trigger] c.acc_accepted(
                    i2,
                    s,
                )) is None by {
                    assert(c.accs@[i2].slot_accepted(s) is None);
                }
            }
            assert forall|s: u64, b: u64| !(#[trigger] c.votes(s).contains_key(b)) by {
                assert(c.votes(s) =~= Map::<u64, VoteInfo>::empty());
            }
            assert forall|i2: int, s: u64| 0 <= i2 < c.n() implies (#[trigger] c.acc_accepted(
                i2,
                s,
            )) is None by {
                assert(c.accs@[i2].slot_accepted(s) is None);
            }
            assert forall|i2: int| 0 <= i2 < c.n() implies (#[trigger] c.acc_fault_rate(i2))
                == info.fault_permille by {
                assert(c.accs@[i2].faults_rate() == info.fault_permille);
            }
        }
        c
    }

    /// The number of acceptors, for callers sizing their round budgets.
    pub fn size(&self) -> (r: usize)
        ensures
            r as int == self.n(),
    {
        self.accs.len()
    }

    /// Runs one round of the protocol for a slot: takes a fresh ballot,
    /// fans `prepare` out to every acceptor, adopts the highest-ballot
    /// accepted value learned (or keeps `value`), fans `accept` out to the
    /// acceptors that answered, and reports the round's value if a majority
    /// of the full cluster accepted it.
    ///
    /// A returned value is chosen, and stays chosen; with
    /// `lemma_chosen_unique`, every round that returns a value for this slot
    /// returns the same one. A fault-free round whose ballot is not behind
    /// any promise succeeds.
    ///
    /// Note the deliberate looseness kept from the protocol: any answered
    /// prepare counts toward the prepare-phase quorum, whether or not it
    /// advanced the promise. The accept phase's exact ballot check is the
    /// real gate, and the invariant shows safety rests on it alone.
    #[verifier::loop_isolation(false)]
    #[verifier::rlimit(100)]
    #[verifier::spinoff_prover]
    pub fn run_round(&mut self, prop: &mut Proposer, slot: u64, value: &Vec<u8>) -> (r: Option<
        Vec<u8>,
    >)
        requires
            old(self).inv(),
            old(prop).round < u32::MAX,
            fresh_for(old(self), old(prop)),
        ensures
            final (self).inv(),
            final (self).n() == old(self).n(),
            votes_preserved(old(self), final (self)),
            fresh_for(final (self), final (prop)),
            final (prop).id == old(prop).id,
            final (prop).round == old(prop).round + 1,
            only_new_ballots_of(old(self), final (self), final (prop)),
            r matches Some(v) ==> final (self).chosen(slot, v@),
            r matches Some(v) ==> value_from(old(self), slot, value@, v@),
            forall|s: u64, b: u64| #[trigger]
                final (self).votes(s).contains_key(b) && !old(self).votes(s).contains_key(b)
                    ==> value_from(old(self), s, value@, final (self).votes(s)[b].value),
            r matches Some(v) ==> ((forall|i: int|
                0 <= i < old(self).n() ==> (#[trigger] old(self).acc_accepted(i, slot)) is None)
                ==> v@ == value@),
            old(self).faults_off() ==> final (self).faults_off(),
            old(self).faults_off() && old(self).pids_at_most(
                slot,
                spec_pack_pid((old(prop).round + 1) as u32, old(prop).id),
            ) ==> r is Some,
    {
        let ghost c0 = *old(self);
        let n = self.accs.len();
        let maj = majority(n);
        let pid = prop.begin_round();
        proof {
            lemma_pack_bounds(prop.round, prop.id);
            assert forall|s: u64| !(#[trigger] c0.votes(s).contains_key(pid)) by {
                if c0.votes(s).contains_key(pid) {
                    assert(spec_pid_node(pid) == old(prop).id as int);
                    assert(spec_pid_round(pid) <= old(prop).round as int);
                    assert(false);
                }
            }
            assert forall|k: int, s: u64| 0 <= k < n implies (#[trigger] self.accs@[k].slot_inv(
                s,
            )) by {
                assert(self.accs@[k].slot_ok(s));
            }
            assert forall|k: int| 0 <= k < n implies (#[trigger] self.accs@[k]).wf() by {
                assert(self.accs@[k].slot_ok(0u64));
            }
        }
        // Prepare phase: fan out to every acceptor; an erroring call simply
        // does not count.
        let mut resp: Vec<Proposal> = Vec::new();
        let mut flags: Vec<bool> = Vec::new();
        let mut responded_count: usize = 0;
        let ghost mut responded: Set<int> = Set::empty();
        let mut i: usize = 0;
        while i < n
            invariant
                i <= n,
                self.accs@.len() == n as int,
                self.hist@ == c0.hist@,
                forall|k: int| i <= k < n ==> self.accs@[k] == c0.accs@[k],
                forall|k: int, s: u64|
                    0 <= k < n ==> (#[trigger] self.accs@[k].slot_accepted(s))
                        == c0.accs@[k].slot_accepted(s),
                forall|k: int, s: u64|
                    0 <= k < n && s != slot ==> (#[trigger] self.accs@[k].slot_pid(s))
                        == c0.accs@[k].slot_pid(s),
                forall|k: int, s: u64|
                    0 <= k < n ==> match c0.accs@[k].slot_pid(s) {
                        Some(p) => (#[trigger] self.accs@[k].slot_pid(s)) matches Some(p2) && p2
                            >= p,
                        None => true,
                    },
                forall|k: int, s: u64| 0 <= k < n ==> (#[trigger] self.accs@[k].slot_ok(s)),
                forall|k: int, s: u64| 0 <= k < n ==> (#[trigger] self.accs@[k].slot_inv(s)),
                forall|k: int| 0 <= k < n ==> (#[trigger] self.accs@[k]).wf(),
                forall|k: int|
                    0 <= k < n ==> (#[trigger] self.accs@[k].faults_rate()) == c0.accs@[
                        k
                    ].faults_rate(),
                flags@.len() == i as int,
                forall|k: int| 0 <= k < i ==> ((#[trigger] flags@[k]) <==> responded.contains(k)),
                responded.finite(),
                forall|k: int| #[trigger] responded.contains(k) ==> 0 <= k < i,
                responded.len() == responded_count as int,
                responded_count <= i,
                forall|k: int| #[trigger]
                    responded.contains(k) ==> self.accs@[k].slot_pid(slot) == Some(
                        promote(c0.accs@[k].slot_pid(slot), pid),
                    ),
                forall|ri: int|
                    0 <= ri < resp@.len() ==> exists|k: int| #[trigger]
                        responded.contains(k) && c0.accs@[k].slot_accepted(slot) == Some(
                            ((#[trigger] resp@[ri]).id, resp@[ri].value@),
                        ),
                forall|k: int| #[trigger]
                    responded.contains(k) ==> match c0.accs@[k].slot_accepted(slot) {
                        Some((b, v)) => exists|ri: int|
                            0 <= ri < resp@.len() && (#[trigger] resp@[ri]).id == b
                                && resp@[ri].value@ == v,
                        None => true,
                    },
                c0.faults_off() ==> forall|k: int| 0 <= k < i ==> responded.contains(k),
            decreases n - i,
        {
            let ghost respondedpre = responded;
            let ghost resppre = resp@;
            let acc = &mut self.accs[i];
            let res = acc.prepare(slot, pid);
            let mut got: Option<Proposal> = None;
            match res {
                Ok(opt) => {
                    flags.push(true);
                    proof {
                        responded = responded.insert(i as int);
                    }
                    responded_count = responded_count + 1;
                    got = opt;
                },
                Err(_) => {
                    flags.push(false);
                },
            }
            let ghost gotv = got;
            match got {
                Some(p) => {
                    proof {
                        assert(c0.accs@[i as int].slot_accepted(slot) == Some((p.id, p.value@)));
                    }
                    resp.push(p);
                },
                None => {},
            }
            proof {
                if c0.faults_off() {
                    assert(c0.accs@[i as int].faults_rate() == 0);
                    assert(responded.contains(i as int));
                }
                if gotv is Some {
                    assert(resp@ == resppre.push(gotv.unwrap()));
                    assert(resp@.last() == gotv.unwrap());
                    assert(c0.accs@[i as int].slot_accepted(slot) == Some(
                        (resp@.last().id, resp@.last().value@),
                    ));
                } else {
                    assert(resp@ == resppre);
                }
                assert forall|ri: int| 0 <= ri < resp@.len() implies exists|k: int| #[trigger]
                    responded.contains(k) && c0.accs@[k].slot_accepted(slot) == Some(
                        ((#[trigger] resp@[ri]).id, resp@[ri].value@),
                    ) by {
                    if ri < resppre.len() {
                        assert(resp@[ri] == resppre[ri]);
                        let k = choose|k: int| #[trigger]
                            respondedpre.contains(k) && c0.accs@[k].slot_accepted(slot) == Some(
                                (resppre[ri].id, resppre[ri].value@),
                            );
                        assert(responded.contains(k));
                    } else {
                        assert(resp@[ri] == resp@.last());
                        assert(responded.contains(i as int));
                    }
                }
                assert forall|k: int| #[trigger] responded.contains(k) implies match c0.accs@[
                    k
                ].slot_accepted(slot) {
                    Some((b, v)) => exists|ri: int|
                        0 <= ri < resp@.len() && (#[trigger] resp@[ri]).id == b
                            && resp@[ri].value@ == v,
                    None => true,
                } by {
                    if respondedpre.contains(k) {
                        match c0.accs@[k].slot_accepted(slot) {
                            Some((b, v)) => {
                                let ri = choose|ri: int|
                                    0 <= ri < resppre.len() && (#[trigger] resppre[ri]).id == b
                                        && resppre[ri].value@ == v;
                                assert(resp@[ri] == resppre[ri]);
                            },
                            None => {},
                        }
                    } else {
                        assert(k == i as int);
                        match c0.accs@[k].slot_accepted(slot) {
                            Some((b, v)) => {
                                assert(gotv is Some);
                                let ri = resp@.len() - 1;
                                assert(resp@[ri].id == b && resp@[ri].value@ == v);
                            },
                            None => {},
                        }
                    }
                }
            }
            i = i + 1;
        }
        proof {
            lemma_promotion_preserves_inv(c0, *self);
            assert(spec_majority(c0.n()) <= c0.n());
            if c0.faults_off() {
                assert(responded =~= set_int_range(0, n as int)) by {
                    assert forall|k: int| set_int_range(0, n as int).contains(k) implies responded
                        .contains(k) by {}
                }
                lemma_int_range(0, n as int);
            }
        }
        proof {
            assert forall|s: u64, b: u64| #[trigger]
                self.votes(s).contains_key(b) && spec_pid_node(b) == prop.id as int implies
                spec_pid_round(b) <= prop.round as int by {
                assert(c0.votes(s).contains_key(b));
            }
            assert forall|s: u64, b: u64| #[trigger]
                self.votes(s).contains_key(b) && !c0.votes(s).contains_key(b) implies
                spec_pid_node(b) == prop.id as int && spec_pid_round(b) <= prop.round as int by {
                assert(self.votes(s) == c0.votes(s));
            }
            assert forall|s: u64, b: u64| #[trigger]
                self.votes(s).contains_key(b) && !c0.votes(s).contains_key(b) implies value_from(
                &c0,
                s,
                value@,
                self.votes(s)[b].value,
            ) by {
                assert(self.votes(s) == c0.votes(s));
            }
        }
        if responded_count < maj {
            // no quorum of answers: the round is lost, nothing was proposed
            return None;
        }
        // Value selection: adopt the highest-ballot accepted value learned,
        // else keep the caller's.
        let chosen_val = select_value(&resp, value);
        let ghost v0 = self.votes(slot);
        proof {
            assert(v0 == c0.votes(slot));
            assert(responded.subset_of(set_int_range(0, n as int)));
            // Safety of the selected value: it agrees with any ballot already
            // chosen below the round's own.
            assert forall|b2: u64|
                v0.contains_key(b2) && v0[b2].voters.len() >= spec_majority(c0.n()) && b2
                    < pid implies v0[b2].value == chosen_val@ by {
                assert(self.inv_votes(slot));
                let voters2 = v0[b2].voters;
                assert(voters2.finite());
                assert(voters2.subset_of(set_int_range(0, n as int))) by {
                    assert forall|k: int| voters2.contains(k) implies set_int_range(
                        0,
                        n as int,
                    ).contains(k) by {
                        assert(0 <= k < self.n());
                    }
                }
                let j = lemma_quorum_overlap(c0.n(), voters2, responded);
                // j accepted some (bj, vj) with bj >= b2, which the prepare
                // phase reported
                assert(self.acc_accepted(j, slot) matches Some((b2x, _)) && b2x >= b2);
                let accj = c0.accs@[j].slot_accepted(slot);
                assert(accj == self.accs@[j].slot_accepted(slot));
                assert(accj is Some);
                let (bj, vj) = accj.unwrap();
                assert(bj >= b2);
                let rj = choose|ri: int|
                    0 <= ri < resp@.len() && (#[trigger] resp@[ri]).id == bj && resp@[ri].value@
                        == vj;
                assert(resp@.len() > 0);
                // the selected response has the highest ballot of all
                let sel = choose|ri: int|
                    0 <= ri < resp@.len() && chosen_val@ == resp@[ri].value@ && (forall|q: int|
                        0 <= q < resp@.len() ==> resp@[q].id <= resp@[ri].id);
                assert(resp@[sel].id >= bj);
                // the selected response is some acceptor's accepted proposal,
                // so it is a recorded vote
                let ks = choose|k: int| #[trigger]
                    responded.contains(k) && c0.accs@[k].slot_accepted(slot) == Some(
                        (resp@[sel].id, resp@[sel].value@),
                    );
                let bstar = resp@[sel].id;
                assert(self.acc_accepted(ks, slot) == Some((bstar, resp@[sel].value@)));
                assert(v0.contains_key(bstar) && v0[bstar].value == resp@[sel].value@);
                assert(bstar >= b2);
                if bstar == b2 {
                } else {
                    assert(b2 < bstar);
                    // vote-value safety of the existing history
                    assert(v0[bstar].value == v0[b2].value);
                }
            }
            // Origin of the selected value: the caller's own, or one learned
            // from an acceptor, which is a recorded vote.
            assert(value_from(&c0, slot, value@, chosen_val@)) by {
                if resp@.len() > 0 {
                    assert(self.inv_votes(slot));
                    let sel = choose|ri: int|
                        0 <= ri < resp@.len() && chosen_val@ == resp@[ri].value@ && (forall|q: int|
                            0 <= q < resp@.len() ==> resp@[q].id <= resp@[ri].id);
                    let ks = choose|k: int| #[trigger]
                        responded.contains(k) && c0.accs@[k].slot_accepted(slot) == Some(
                            (resp@[sel].id, resp@[sel].value@),
                        );
                    assert(self.acc_accepted(ks, slot) == Some((resp@[sel].id, resp@[sel].value@)));
                    assert(v0.contains_key(resp@[sel].id) && v0[resp@[sel].id].value
                        == resp@[sel].value@);
                    assert(c0.votes(slot).contains_key(resp@[sel].id));
                }
            }
            // On a slot nobody has accepted anything for, the caller's value
            // is the only candidate.
            if forall|i: int| 0 <= i < c0.n() ==> (#[trigger] c0.acc_accepted(i, slot)) is None {
                assert(resp@.len() == 0) by {
                    if resp@.len() > 0 {
                        let k = choose|k: int| #[trigger]
                            responded.contains(k) && c0.accs@[k].slot_accepted(slot) == Some(
                                (resp@[0].id, resp@[0].value@),
                            );
                        assert(c0.acc_accepted(k, slot) is None);
                    }
                }
                assert(chosen_val@ == value@);
            }
        }
        // Record the accept phase in the history, then fan out.
        let ghost cprep = *self;
        let ghost nv = VoteInfo { value: chosen_val@, voters: Set::empty() };
        let ghost v1 = v0.insert(pid, nv);
        let ghost h1 = self.hist@.insert(slot, v1);
        self.hist = Ghost(h1);
        let ghost c1 = *self;
        proof {
            assert(c1.votes(slot) == v1);
            assert forall|s: u64| s != slot implies c1.votes(s) == c0.votes(s) by {}
            // the new, empty-voter entry keeps every invariant
            assert forall|s: u64| #[trigger] c1.inv_votes(s) by {
                assert(cprep.inv_votes(s));
                assert(c1.accs@ == cprep.accs@);
                if s == slot {
                    let v = c1.votes(s);
                    assert forall|i2: int| 0 <= i2 < c1.n() implies match #[trigger] c1
                        .acc_accepted(i2, s) {
                        Some((b, val)) => v.contains_key(b) && v[b].value == val
                            && v[b].voters.contains(i2),
                        None => true,
                    } by {
                        assert(cprep.acc_accepted(i2, s) == c1.acc_accepted(i2, s));
                        match c1.acc_accepted(i2, s) {
                            Some((b, val)) => {
                                assert(v0.contains_key(b) && v0[b].value == val
                                    && v0[b].voters.contains(i2));
                                assert(b != pid);
                            },
                            None => {},
                        }
                    }
                    assert forall|b: u64, k: int|
                        v.contains_key(b) && #[trigger] v[b].voters.contains(k) implies {
                        &&& 0 <= k < c1.n()
                        &&& (c1.acc_pid(k, s) matches Some(p) && p >= b)
                        &&& (c1.acc_accepted(k, s) matches Some((b2, _)) && b2 >= b)
                    } by {
                        if b == pid {
                            assert(!v[pid].voters.contains(k));
                        } else {
                            assert(v0.contains_key(b) && v0[b].voters.contains(k));
                            assert(cprep.acc_pid(k, s) == c1.acc_pid(k, s));
                            assert(cprep.acc_accepted(k, s) == c1.acc_accepted(k, s));
                        }
                    }
                    assert forall|b: u64| #[trigger] v.contains_key(b) implies v[
                        b
                    ].voters.finite() by {
                        if b != pid {
                            assert(v0.contains_key(b));
                            assert(v0[b].voters.finite());
                        }
                    }
                    assert forall|b: u64| #[trigger] v.contains_key(b) implies c1.promisers(
                        s,
                        b,
                    ).len() >= spec_majority(c1.n()) by {
                        if b == pid {
                            assert(responded.subset_of(c1.promisers(s, pid))) by {
                                assert forall|k: int| responded.contains(k) implies c1.promisers(
                                    s,
                                    pid,
                                ).contains(k) by {
                                    assert(c1.accs@[k].slot_pid(slot) == Some(
                                        promote(c0.accs@[k].slot_pid(slot), pid),
                                    ));
                                }
                            }
                            assert(c1.promisers(s, pid).subset_of(set_int_range(0, c1.n())));
                            lemma_index_set_bounds(c1.promisers(s, pid), c1.n());
                            lemma_len_subset(responded, c1.promisers(s, pid));
                        } else {
                            assert(v0.contains_key(b));
                            lemma_promisers_eq(cprep, c1, s, b);
                            assert(cprep.promisers(s, b).len() >= spec_majority(cprep.n()));
                        }
                    }
                    assert forall|b: u64, b2: u64|
                        #![trigger v.contains_key(b), v.contains_key(b2)]
                        v.contains_key(b) && v.contains_key(b2) && b2 < b && v[b2].voters.len()
                            >= spec_majority(c1.n()) implies v[b].value == v[b2].value by {
                        if b2 == pid {
                            // a fresh entry has no voters
                            assert(v[pid].voters.len() == 0);
                            assert(spec_majority(c1.n()) >= 1);
                            assert(false);
                        } else if b == pid {
                            assert(v0.contains_key(b2) && v0[b2].value == v[b2].value);
                            assert(v0[b2].value == chosen_val@);
                        } else {
                            assert(v0.contains_key(b) && v0.contains_key(b2));
                        }
                    }
                } else {
                    let v = c1.votes(s);
                    assert(v == cprep.votes(s));
                    assert forall|i2: int| 0 <= i2 < c1.n() implies match #[trigger] c1
                        .acc_accepted(i2, s) {
                        Some((b, val)) => v.contains_key(b) && v[b].value == val
                            && v[b].voters.contains(i2),
                        None => true,
                    } by {
                        assert(cprep.acc_accepted(i2, s) == c1.acc_accepted(i2, s));
                    }
                    assert forall|b: u64, k: int|
                        v.contains_key(b) && #[trigger] v[b].voters.contains(k) implies {
                        &&& 0 <= k < c1.n()
                        &&& (c1.acc_pid(k, s) matches Some(p) && p >= b)
                        &&& (c1.acc_accepted(k, s) matches Some((b2, _)) && b2 >= b)
                    } by {
                        assert(cprep.acc_pid(k, s) == c1.acc_pid(k, s));
                        assert(cprep.acc_accepted(k, s) == c1.acc_accepted(k, s));
                    }
                    assert forall|b: u64| #[trigger] v.contains_key(b) implies c1.promisers(
                        s,
                        b,
                    ).len() >= spec_majority(c1.n()) by {
                        lemma_promisers_eq(cprep, c1, s, b);
                        assert(cprep.promisers(s, b).len() >= spec_majority(cprep.n()));
                    }
                }
            }
        }
        // Accept phase: only acceptors that answered the prepare are asked.
        let mut accepted_count: usize = 0;
        let mut i: usize = 0;
        while i < n
            invariant
                i <= n,
                self.accs@.len() == n as int,
                self.n() == c1.n(),
                self.inv(),
                // promises do not move in the accept phase
                forall|k: int, s: u64|
                    0 <= k < n ==> (#[trigger] self.accs@[k].slot_pid(s)) == c1.accs@[k].slot_pid(
                        s,
                    ),
                forall|k: int| i <= k < n ==> self.accs@[k] == c1.accs@[k],
                forall|k: int, s: u64|
                    0 <= k < n && s != slot ==> (#[trigger] self.accs@[k].slot_accepted(s))
                        == c1.accs@[k].slot_accepted(s),
                forall|k: int|
                    0 <= k < n ==> (#[trigger] self.accs@[k].faults_rate()) == c1.accs@[
                        k
                    ].faults_rate(),
                // the history changes only by voters joining the new entry
                self.hist@.contains_key(slot),
                self.votes(slot).dom() == v1.dom(),
                self.votes(slot)[pid].value == chosen_val@,
                forall|b: u64|
                    #[trigger] v1.contains_key(b) && b != pid ==> self.votes(slot)[b] == v1[b],
                forall|s: u64| s != slot ==> (#[trigger] self.votes(s)) == c1.votes(s),
                // voters of the new entry: counted, in range, already asked,
                // and still promised at exactly the round's ballot
                self.votes(slot)[pid].voters.finite(),
                self.votes(slot)[pid].voters.len() == accepted_count as int,
                accepted_count <= i,
                forall|k: int| #[trigger]
                    self.votes(slot)[pid].voters.contains(k) ==> 0 <= k < i,
                forall|k: int| #[trigger]
                    self.votes(slot)[pid].voters.contains(k) ==> self.acc_pid(k, slot) == Some(
                        pid,
                    ),
                // a fault-free round with an unbeaten ballot convinces all
                c0.faults_off() && c0.pids_at_most(slot, pid) ==> accepted_count as int == i as int,
            decreases n - i,
        {
            let ghost selfpre = *self;
            if flags[i] {
                proof {
                    assert(responded.contains(i as int));
                    assert(selfpre.accs@[i as int].slot_pid(slot) == Some(
                        promote(c0.accs@[i as int].slot_pid(slot), pid),
                    ));
                    assert(selfpre.accs@[i as int].slot_ok(slot));
                }
                let val_copy = clone_bytes(&chosen_val);
                let acc = &mut self.accs[i];
                let res = acc.accept(slot, pid, val_copy);
                match res {
                    Ok(aid) => {
                        if aid == pid {
                            proof {
                                let vcur = selfpre.votes(slot);
                                let rec2 = VoteInfo {
                                    value: vcur[pid].value,
                                    voters: vcur[pid].voters.insert(i as int),
                                };
                                let v2 = vcur.insert(pid, rec2);
                                let h2 = selfpre.hist@.insert(slot, v2);
                                self.hist@ = h2;
                            }
                            accepted_count = accepted_count + 1;
                            proof {
                                assert forall|k: int, s: u64| 0 <= k < self.n() implies (
                                #[trigger] self.accs@[k].slot_inv(s)) by {
                                    assert(selfpre.accs@[k].slot_ok(s));
                                }
                                assert forall|k: int, s: u64| 0 <= k < self.n() implies (
                                #[trigger] self.accs@[k].slot_ok(s)) by {
                                    assert(selfpre.accs@[k].slot_ok(s));
                                }
                                assert forall|k: int| 0 <= k < self.n() implies (
                                #[trigger] self.accs@[k]).wf() by {
                                    assert(selfpre.accs@[k].slot_ok(0u64));
                                }
                                assert(selfpre.acc_pid(i as int, slot) == Some(pid));
                                assert forall|b2: u64| #[trigger]
                                    selfpre.votes(slot).contains_key(b2) && b2 < pid
                                        && selfpre.votes(slot)[b2].voters.len() >= spec_majority(
                                        selfpre.n(),
                                    ) implies selfpre.votes(slot)[b2].value == chosen_val@ by {
                                    assert(v1.contains_key(b2));
                                    assert(v0.contains_key(b2));
                                    assert(selfpre.votes(slot)[b2] == v0[b2]);
                                }
                                lemma_accept_vote_step(
                                    selfpre,
                                    *self,
                                    slot,
                                    pid,
                                    i as int,
                                    chosen_val@,
                                );
                            }
                        } else {
                            proof {
                                assert(self.hist@ == selfpre.hist@);
                                assert forall|s: u64| #[trigger] self.votes(s) == selfpre.votes(
                                    s,
                                ) by {}
                                self.lemma_noop_frame(selfpre);
                            }
                        }
                    },
                    Err(_) => {
                        proof {
                            assert(self.hist@ == selfpre.hist@);
                            assert forall|s: u64| #[trigger] self.votes(s) == selfpre.votes(
                                s,
                            ) by {}
                            self.lemma_noop_frame(selfpre);
                        }
                    },
                }
                proof {
                    if c0.faults_off() && c0.pids_at_most(slot, pid) {
                        assert(c0.faults_off() ==> forall|k2: int|
                            0 <= k2 < c0.n() ==> (#[trigger] c0.accs@[k2].faults_rate()) == 0);
                        assert(c0.accs@[i as int].faults_rate() == 0);
                        assert(selfpre.accs@[i as int].faults_rate() == 0);
                        assert(c0.acc_pid(i as int, slot) == c0.accs@[i as int].slot_pid(slot));
                        assert(promote(c0.accs@[i as int].slot_pid(slot), pid) == pid);
                    }
                }
            } else {
                proof {
                    if c0.faults_off() {
                        assert(responded.contains(i as int));
                        assert(flags@[i as int]);
                    }
                }
            }
            i = i + 1;
        }
        proof {
            assert(votes_preserved(old(self), final (self))) by {
                assert forall|s: u64, b: u64| #[trigger]
                    c0.votes(s).contains_key(b) implies self.votes(s).contains_key(b)
                    && self.votes(s)[b] == c0.votes(s)[b] by {
                    if s == slot {
                        assert(b != pid);
                        assert(v1.contains_key(b) && v1[b] == v0[b]);
                    }
                }
            }
            assert forall|s: u64, b: u64| #[trigger]
                self.votes(s).contains_key(b) && !c0.votes(s).contains_key(b) implies
                spec_pid_node(b) == prop.id as int && spec_pid_round(b) <= prop.round as int by {
                if s == slot {
                    assert(self.votes(slot).dom() == v1.dom());
                    assert(v1.contains_key(b));
                    if b != pid {
                        assert(v0.contains_key(b));
                    }
                } else {
                    assert(self.votes(s) == c1.votes(s));
                    assert(c1.votes(s) == c0.votes(s));
                }
            }
            assert(fresh_for(final (self), final (prop))) by {
                assert forall|s: u64, b: u64| #[trigger]
                    self.votes(s).contains_key(b) && spec_pid_node(b) == prop.id as int implies
                    spec_pid_round(b) <= prop.round as int by {
                    if s == slot && b == pid {
                    } else {
                        if s == slot {
                            assert(v1.contains_key(b));
                            assert(c0.votes(s).contains_key(b));
                        } else {
                            assert(c0.votes(s).contains_key(b));
                        }
                    }
                }
            }
            assert forall|s: u64, b: u64| #[trigger]
                self.votes(s).contains_key(b) && !c0.votes(s).contains_key(b) implies value_from(
                &c0,
                s,
                value@,
                self.votes(s)[b].value,
            ) by {
                if s == slot {
                    assert(self.votes(slot).dom() == v1.dom());
                    assert(v1.contains_key(b));
                    if b != pid {
                        assert(v0.contains_key(b));
                    } else {
                        assert(self.votes(slot)[pid].value == chosen_val@);
                    }
                } else {
                    assert(self.votes(s) == c1.votes(s));
                    assert(c1.votes(s) == c0.votes(s));
                }
            }
        }
        if accepted_count >= maj {
            proof {
                assert(self.chosen_at(slot, pid));
                assert(self.vote_value(slot, pid) == chosen_val@);
            }
            Some(chosen_val)
        } else {
            proof {
                if c0.faults_off() && c0.pids_at_most(slot, pid) {
                    assert(accepted_count as int == n as int);
                    assert(false);
                }
            }
            None
        }
    }

    /// Runs rounds for a slot until a value is chosen or the round budget is
    /// spent, as the proposer's `choose` does — with a budget in place of
    /// retrying forever, so that termination is checkable; the embedding
    /// program may call again to keep trying. A randomized backoff between
    /// rounds de-synchronizes dueling proposers but does not change what a
    /// round may return, so none is taken here.
    ///
    /// A returned value is chosen for the slot, and with
    /// `lemma_chosen_unique` every call that returns a value for this slot
    /// returns the same one, whatever values the callers asked for.
    #[verifier::loop_isolation(false)]
    pub fn choose_value(
        &mut self,
        prop: &mut Proposer,
        slot: u64,
        value: &Vec<u8>,
        rounds: usize,
    ) -> (r: Option<Vec<u8>>)
        requires
            old(self).inv(),
            fresh_for(old(self), old(prop)),
            old(prop).round as int + rounds as int <= u32::MAX as int,
        ensures
            final (self).inv(),
            final (self).n() == old(self).n(),
            votes_preserved(old(self), final (self)),
            fresh_for(final (self), final (prop)),
            only_new_ballots_of(old(self), final (self), final (prop)),
            final (prop).id == old(prop).id,
            old(prop).round <= final (prop).round,
            final (prop).round as int <= old(prop).round as int + rounds as int,
            r matches Some(v) ==> final (self).chosen(slot, v@),
            r matches Some(v) ==> value_from(old(self), slot, value@, v@),
            forall|b: u64| #[trigger]
                final (self).votes(slot).contains_key(b) && !old(self).votes(slot).contains_key(b)
                    ==> value_from(old(self), slot, value@, final (self).votes(slot)[b].value),
            old(self).faults_off() ==> final (self).faults_off(),
            old(self).faults_off() && rounds >= 1 && old(self).pids_at_most(
                slot,
                spec_pack_pid((old(prop).round + 1) as u32, old(prop).id),
            ) ==> r is Some,
            old(self).faults_off() && rounds >= 1 && old(self).pids_at_most(
                slot,
                spec_pack_pid((old(prop).round + 1) as u32, old(prop).id),
            ) && (forall|i: int|
                0 <= i < old(self).n() ==> (#[trigger] old(self).acc_accepted(i, slot)) is None)
                ==> (r matches Some(v) && v@ == value@),
    {
        let ghost c0 = *old(self);
        let ghost p0 = *old(prop);
        let mut k: usize = 0;
        while k < rounds
            invariant
                k <= rounds,
                self.inv(),
                self.n() == c0.n(),
                forall|s: u64, b: u64| #[trigger]
                    c0.votes(s).contains_key(b) ==> self.votes(s).contains_key(b) && self.votes(
                        s,
                    )[b] == c0.votes(s)[b],
                fresh_for(self, prop),
                only_new_ballots_of(&c0, self, prop),
                forall|b: u64| #[trigger]
                    self.votes(slot).contains_key(b) && !c0.votes(slot).contains_key(b)
                        ==> value_from(&c0, slot, value@, self.votes(slot)[b].value),
                prop.id == p0.id,
                p0.round <= prop.round,
                prop.round as int <= p0.round as int + k as int,
                c0.faults_off() ==> self.faults_off(),
                (c0.faults_off() && c0.pids_at_most(
                    slot,
                    spec_pack_pid((p0.round + 1) as u32, p0.id),
                )) ==> k == 0 && *self == c0 && *prop == p0,
            decreases rounds - k,
        {
            let ghost clmid = *self;
            let ghost pmid = *prop;
            let got = self.run_round(prop, slot, value);
            proof {
                assert forall|s: u64, b: u64| #[trigger]
                    self.votes(s).contains_key(b) && !c0.votes(s).contains_key(b) implies
                    spec_pid_node(b) == prop.id as int && spec_pid_round(b)
                        <= prop.round as int by {
                    if clmid.votes(s).contains_key(b) {
                        assert(spec_pid_node(b) == pmid.id as int && spec_pid_round(b)
                            <= pmid.round as int);
                    }
                }
                assert forall|b: u64| #[trigger]
                    self.votes(slot).contains_key(b) && !c0.votes(slot).contains_key(b) implies
                    value_from(&c0, slot, value@, self.votes(slot)[b].value) by {
                    if clmid.votes(slot).contains_key(b) {
                        assert(value_from(&c0, slot, value@, clmid.votes(slot)[b].value));
                        assert(self.votes(slot)[b] == clmid.votes(slot)[b]);
                    } else {
                        lemma_value_from_trans(&c0, &clmid, slot, value@, self.votes(slot)[b].value);
                    }
                }
            }
            match got {
                Some(v) => {
                    proof {
                        lemma_value_from_trans(&c0, &clmid, slot, value@, v@);
                    }
                    return Some(v);
                },
                None => {},
            }
            k = k + 1;
        }
        None
    }

    /// An acceptor call that left every slot's persistent state unchanged
    /// preserves the cluster invariant.
    proof fn lemma_noop_frame(&self, pre: Cluster)
        requires
            pre.inv(),
            self.n() == pre.n(),
            self.hist@ == pre.hist@,
            forall|k: int, s: u64|
                0 <= k < self.n() ==> (#[trigger] self.accs@[k].slot_accepted(s)) == pre.accs@[
                    k
                ].slot_accepted(s),
            forall|k: int, s: u64|
                0 <= k < self.n() ==> (#[trigger] self.accs@[k].slot_pid(s)) == pre.accs@[
                    k
                ].slot_pid(s),
            forall|k: int, s: u64|
                0 <= k < self.n() && pre.accs@[k].slot_ok(s) ==> (#[trigger] self.accs@[
                    k
                ].slot_ok(s)),
            forall|k: int, s: u64|
                0 <= k < self.n() && pre.accs@[k].slot_inv(s) ==> (#[trigger] self.accs@[
                    k
                ].slot_inv(s)),
            forall|k: int|
                0 <= k < self.n() && pre.accs@[k].wf() ==> (#[trigger] self.accs@[k]).wf(),
        ensures
            self.inv(),
    {
        assert forall|k: int, s: u64| 0 <= k < self.n() implies (#[trigger] self.accs@[k].slot_ok(
            s,
        )) by {
            assert(pre.accs@[k].slot_ok(s));
        }
        assert forall|k: int, s: u64| 0 <= k < self.n() implies (#[trigger] self.accs@[
            k
        ].slot_inv(s)) by {
            assert(pre.accs@[k].slot_ok(s));
        }
        assert forall|k: int| 0 <= k < self.n() implies (#[trigger] self.accs@[k]).wf() by {
            assert(pre.accs@[k].slot_ok(0u64));
        }
        lemma_promotion_preserves_inv(pre, *self);
    }
}

/// One successful accept: acceptor `i` stored the round's proposal, and
/// joins the round's entry in the history. Every invariant is preserved; the
/// key step is that the entry's voters stay disjoint from the promisers of
/// any higher recorded ballot, so a higher ballot's round can never have
/// adopted a value chosen late at this one.
#[verifier::rlimit(100)]
#[verifier::spinoff_prover]
proof fn lemma_accept_vote_step(
    pre: Cluster,
    post: Cluster,
    slot: u64,
    pid: u64,
    i: int,
    cval: Seq<u8>,
)
    requires
        pre.inv(),
        0 <= i < pre.n(),
        post.n() == pre.n(),
        // the acceptor wrote the round's proposal
        post.acc_accepted(i, slot) == Some((pid, cval)),
        forall|k: int, s: u64|
            0 <= k < post.n() && (k != i || s != slot) ==> (#[trigger] post.acc_accepted(k, s))
                == pre.acc_accepted(k, s),
        forall|k: int, s: u64|
            0 <= k < post.n() ==> (#[trigger] post.accs@[k].slot_pid(s)) == pre.accs@[
                k
            ].slot_pid(s),
        forall|k: int, s: u64| 0 <= k < post.n() ==> (#[trigger] post.accs@[k].slot_ok(s)),
        forall|k: int, s: u64| 0 <= k < post.n() ==> (#[trigger] post.accs@[k].slot_inv(s)),
        forall|k: int| 0 <= k < post.n() ==> (#[trigger] post.accs@[k]).wf(),
        pre.acc_pid(i, slot) == Some(pid),
        // the history gains the vote and nothing else
        pre.votes(slot).contains_key(pid),
        pre.votes(slot)[pid].value == cval,
        pre.votes(slot)[pid].voters.finite(),
        post.hist@ == pre.hist@.insert(
            slot,
            pre.votes(slot).insert(
                pid,
                VoteInfo { value: cval, voters: pre.votes(slot)[pid].voters.insert(i) },
            ),
        ),
        !pre.votes(slot)[pid].voters.contains(i),
        forall|k: int| #[trigger] pre.votes(slot)[pid].voters.contains(k) ==> 0 <= k < pre.n(),
        forall|k: int| #[trigger]
            pre.votes(slot)[pid].voters.contains(k) ==> pre.acc_pid(k, slot) == Some(pid),
        // the round's value agrees with every ballot chosen below it
        forall|b2: u64|
            #[trigger] pre.votes(slot).contains_key(b2) && b2 < pid && pre.votes(
                slot,
            )[b2].voters.len() >= spec_majority(pre.n()) ==> pre.votes(slot)[b2].value == cval,
    ensures
        post.inv(),
        post.votes(slot).dom() == pre.votes(slot).dom(),
        post.votes(slot)[pid].value == cval,
        post.votes(slot)[pid].voters.finite(),
        post.votes(slot)[pid].voters.len() == pre.votes(slot)[pid].voters.len() + 1,
        forall|b: u64|
            #[trigger] pre.votes(slot).contains_key(b) && b != pid ==> post.votes(slot)[b]
                == pre.votes(slot)[b],
        forall|s: u64| s != slot ==> (#[trigger] post.votes(s)) == pre.votes(s),
        forall|k: int| #[trigger]
            post.votes(slot)[pid].voters.contains(k) <==> (k == i || pre.votes(
                slot,
            )[pid].voters.contains(k)),
        forall|k: int| #[trigger]
            post.votes(slot)[pid].voters.contains(k) ==> post.acc_pid(k, slot) == Some(pid),
{
    let n = pre.n();
    let v = pre.votes(slot);
    let voters2 = v[pid].voters.insert(i);
    let v2 = v.insert(pid, VoteInfo { value: cval, voters: voters2 });
    assert(post.votes(slot) == v2);
    assert forall|s: u64| s != slot implies (#[trigger] post.votes(s)) == pre.votes(s) by {}
    assert(v2.dom() =~= v.dom());
    // promisers are untouched: promises did not move
    assert forall|s: u64, b: u64| #[trigger]
        post.promisers(s, b) == pre.promisers(s, b) by {
        assert(post.promisers(s, b) =~= pre.promisers(s, b)) by {
            assert forall|k: int|
                post.promisers(s, b).contains(k) <==> pre.promisers(s, b).contains(k) by {
                if 0 <= k < n {
                    assert(post.accs@[k].slot_pid(s) == pre.accs@[k].slot_pid(s));
                }
            }
        }
    }
    assert forall|s: u64| #[trigger] post.inv_votes(s) by {
        assert(pre.inv_votes(s));
        if s == slot {
            // accepted state still mirrors the votes
            assert forall|k: int| 0 <= k < n implies match #[trigger] post.acc_accepted(k, s) {
                Some((b, val)) => v2.contains_key(b) && v2[b].value == val
                    && v2[b].voters.contains(k),
                None => true,
            } by {
                if k != i {
                    match pre.acc_accepted(k, s) {
                        Some((b, val)) => {
                            assert(v.contains_key(b) && v[b].value == val && v[b].voters.contains(
                                k,
                            ));
                        },
                        None => {},
                    }
                }
            }
            // voters promised and accepted at least their ballot
            assert forall|b: u64, k: int|
                v2.contains_key(b) && #[trigger] v2[b].voters.contains(k) implies {
                &&& 0 <= k < n
                &&& (post.acc_pid(k, s) matches Some(p) && p >= b)
                &&& (post.acc_accepted(k, s) matches Some((b2, _)) && b2 >= b)
            } by {
                if b == pid && k == i {
                } else if b == pid {
                    assert(v[pid].voters.contains(k));
                } else {
                    assert(v[b].voters.contains(k));
                    assert(pre.acc_pid(k, s) matches Some(p) && p >= b);
                    if k == i {
                        // its old accepted ballot was at most its promise,
                        // which equals the round's ballot
                        assert(pre.acc_accepted(i, s) matches Some((bi, _)) && bi >= b);
                        assert(pre.accs@[i].slot_inv(s));
                        assert(pid >= b);
                    }
                }
            }
            // quorum of promisers behind every recorded ballot
            assert forall|b: u64| #[trigger] v2.contains_key(b) implies post.promisers(
                s,
                b,
            ).len() >= spec_majority(n) by {
                assert(v.contains_key(b));
            }
            // vote-value safety
            assert forall|b: u64, b2: u64|
                #![trigger v2.contains_key(b), v2.contains_key(b2)]
                v2.contains_key(b) && v2.contains_key(b2) && b2 < b && v2[b2].voters.len()
                    >= spec_majority(n) implies v2[b].value == v2[b2].value by {
                if b2 == pid {
                    // voters of this ballot all sit at promise `pid`, below
                    // the promisers of the higher recorded ballot `b`
                    assert(v.contains_key(b));
                    assert(pre.promisers(s, b).len() >= spec_majority(n));
                    assert(voters2.disjoint(pre.promisers(s, b))) by {
                        assert forall|k: int| voters2.contains(k) implies !pre.promisers(
                            s,
                            b,
                        ).contains(k) by {
                            assert(pre.acc_pid(k, s) == Some(pid));
                            assert(pid < b);
                        }
                    }
                    assert(voters2.subset_of(set_int_range(0, n))) by {
                        assert forall|k: int| voters2.contains(k) implies set_int_range(
                            0,
                            n,
                        ).contains(k) by {}
                    }
                    assert(pre.promisers(s, b).subset_of(set_int_range(0, n)));
                    lemma_short_of_majority(n, voters2, pre.promisers(s, b));
                    assert(false);
                } else if b == pid {
                    assert(v.contains_key(b2) && v[b2].voters.len() >= spec_majority(n));
                    assert(v[b2].value == cval);
                } else {
                    assert(v.contains_key(b) && v.contains_key(b2));
                    assert(v[b2].voters.len() >= spec_majority(n));
                }
            }
        } else {
            assert(post.votes(s) == pre.votes(s));
            assert forall|k: int| 0 <= k < n implies match #[trigger] post.acc_accepted(k, s) {
                Some((b, val)) => post.votes(s).contains_key(b) && post.votes(s)[b].value == val
                    && post.votes(s)[b].voters.contains(k),
                None => true,
            } by {
                assert(post.acc_accepted(k, s) == pre.acc_accepted(k, s));
            }
            assert forall|b: u64, k: int|
                post.votes(s).contains_key(b) && #[trigger] post.votes(s)[b].voters.contains(
                    k,
                ) implies {
                &&& 0 <= k < n
                &&& (post.acc_pid(k, s) matches Some(p) && p >= b)
                &&& (post.acc_accepted(k, s) matches Some((b2, _)) && b2 >= b)
            } by {
                assert(pre.votes(s)[b].voters.contains(k));
                assert(pre.acc_pid(k, s) matches Some(p) && p >= b);
                assert(post.acc_accepted(k, s) == pre.acc_accepted(k, s));
            }
        }
    }
    assert(voters2.len() == v[pid].voters.len() + 1);
}

/// Raising promises (and nothing else) preserves the cluster invariant.
proof fn lemma_promotion_preserves_inv(pre: Cluster, post: Cluster)
    requires
        pre.inv(),
        post.n() == pre.n(),
        post.hist@ == pre.hist@,
        forall|k: int, s: u64|
            0 <= k < post.n() ==> (#[trigger] post.accs@[k].slot_accepted(s))
                == pre.accs@[k].slot_accepted(s),
        forall|k: int, s: u64|
            0 <= k < post.n() ==> match pre.accs@[k].slot_pid(s) {
                Some(p) => (#[trigger] post.accs@[k].slot_pid(s)) matches Some(p2) && p2 >= p,
                None => true,
            },
        forall|k: int, s: u64| 0 <= k < post.n() ==> (#[trigger] post.accs@[k].slot_ok(s)),
        forall|k: int, s: u64| 0 <= k < post.n() ==> (#[trigger] post.accs@[k].slot_inv(s)),
        forall|k: int| 0 <= k < post.n() ==> (#[trigger] post.accs@[k]).wf(),
    ensures
        post.inv(),
{
    assert forall|s: u64| #[trigger] post.inv_votes(s) by {
        assert(pre.inv_votes(s));
        let v = post.votes(s);
        assert(v == pre.votes(s));
        assert forall|i: int| 0 <= i < post.n() implies match #[trigger] post.acc_accepted(i, s) {
            Some((b, val)) => v.contains_key(b) && v[b].value == val && v[b].voters.contains(i),
            None => true,
        } by {
            assert(post.acc_accepted(i, s) == pre.acc_accepted(i, s));
        }
        assert forall|b: u64, i: int|
            v.contains_key(b) && #[trigger] v[b].voters.contains(i) implies {
            &&& 0 <= i < post.n()
            &&& (post.acc_pid(i, s) matches Some(p) && p >= b)
            &&& (post.acc_accepted(i, s) matches Some((b2, _)) && b2 >= b)
        } by {
            assert(pre.acc_pid(i, s) matches Some(p) && p >= b);
            assert(post.acc_accepted(i, s) == pre.acc_accepted(i, s));
        }
        assert forall|b: u64| #[trigger] v.contains_key(b) implies post.promisers(s, b).len()
            >= spec_majority(post.n()) by {
            assert(pre.promisers(s, b).subset_of(post.promisers(s, b))) by {
                assert forall|k: int| pre.promisers(s, b).contains(k) implies post.promisers(
                    s,
                    b,
                ).contains(k) by {
                    assert(pre.accs@[k].slot_pid(s) matches Some(p) && p >= b);
                }
            }
            assert(post.promisers(s, b).subset_of(set_int_range(0, post.n())));
            lemma_index_set_bounds(post.promisers(s, b), post.n());
            lemma_len_subset(pre.promisers(s, b), post.promisers(s, b));
        }
    }
}

/// Clusters with the same acceptors have the same promisers.
proof fn lemma_promisers_eq(a: Cluster, b: Cluster, s: u64, bal: u64)
    requires
        a.accs@ == b.accs@,
    ensures
        a.promisers(s, bal) == b.promisers(s, bal),
{
    assert(a.promisers(s, bal) =~= b.promisers(s, bal));
}

/// A set of acceptor indices is finite and no larger than the cluster.
proof fn lemma_index_set_bounds(a: Set<int>, n: int)
    requires
        n >= 0,
        a.subset_of(set_int_range(0, n)),
    ensures
        a.finite(),
        a.len() <= n,
{
    lemma_int_range(0, n);
    lemma_len_subset(a, set_int_range(0, n));
}

/// Two majorities of one cluster overlap: some index is in both.
proof fn lemma_quorum_overlap(n: int, a: Set<int>, b: Set<int>) -> (j: int)
    requires
        n >= 1,
        a.subset_of(set_int_range(0, n)),
        b.subset_of(set_int_range(0, n)),
        a.len() >= spec_majority(n),
        b.len() >= spec_majority(n),
    ensures
        a.contains(j),
        b.contains(j),
{
    lemma_index_set_bounds(a, n);
    lemma_index_set_bounds(b, n);
    if a.intersect(b) =~= Set::<int>::empty() {
        assert(a.disjoint(b)) by {
            assert forall|x: int| a.contains(x) implies !b.contains(x) by {
                assert(!a.intersect(b).contains(x));
            }
        }
        lemma_set_disjoint_lens(a, b);
        assert((a + b).subset_of(set_int_range(0, n)));
        lemma_index_set_bounds(a + b, n);
        assert(false);
    }
    let j = a.intersect(b).choose();
    assert(a.intersect(b).contains(j)) by {
        assert(!a.intersect(b).is_empty());
    }
    j
}

/// A set of indices disjoint from a majority is itself short of a majority.
proof fn lemma_short_of_majority(n: int, a: Set<int>, b: Set<int>)
    requires
        n >= 1,
        a.subset_of(set_int_range(0, n)),
        b.subset_of(set_int_range(0, n)),
        a.disjoint(b),
        b.len() >= spec_majority(n),
    ensures
        a.len() < spec_majority(n),
{
    lemma_index_set_bounds(a, n);
    lemma_index_set_bounds(b, n);
    lemma_set_disjoint_lens(a, b);
    lemma_index_set_bounds(a + b, n);
}

/// Law: at most one value is chosen per slot. If a slot's value is decided
/// at two ballots, the ballots proposed the same value.
pub proof fn lemma_chosen_agreement(c: &Cluster, slot: u64, b1: u64, b2: u64)
    requires
        c.inv(),
        c.chosen_at(slot, b1),
        c.chosen_at(slot, b2),
    ensures
        c.vote_value(slot, b1) == c.vote_value(slot, b2),
{
    assert(c.inv_votes(slot));
    if b1 < b2 {
    } else if b2 < b1 {
    }
}

/// Law: any two chosen values of one slot are equal.
pub proof fn lemma_chosen_unique(c: &Cluster, slot: u64, v1: Seq<u8>, v2: Seq<u8>)
    requires
        c.inv(),
        c.chosen(slot, v1),
        c.chosen(slot, v2),
    ensures
        v1 == v2,
{
    let b1 = choose|b: u64| c.chosen_at(slot, b) && c.vote_value(slot, b) == v1;
    let b2 = choose|b: u64| c.chosen_at(slot, b) && c.vote_value(slot, b) == v2;
    lemma_chosen_agreement(c, slot, b1, b2);
}

/// Whether `post`'s history keeps every accept-phase record of `pre`.
/// Recorded votes are never lost or rewritten, so a chosen value stays
/// chosen (`lemma_chosen_stable`).
pub open spec fn votes_preserved(pre: &Cluster, post: &Cluster) -> bool {
    &&& post.n() == pre.n()
    &&& forall|s: u64, b: u64|
        #[trigger] pre.votes(s).contains_key(b) ==> post.votes(s).contains_key(b) && post.votes(
            s,
        )[b] == pre.votes(s)[b]
}

/// Law: a chosen value stays chosen across any operation that preserves the
/// recorded votes.
pub proof fn lemma_chosen_stable(pre: &Cluster, post: &Cluster, slot: u64, value: Seq<u8>)
    requires
        votes_preserved(pre, post),
        pre.chosen(slot, value),
    ensures
        post.chosen(slot, value),
{
    let b = choose|b: u64| pre.chosen_at(slot, b) && pre.vote_value(slot, b) == value;
    assert(post.votes(slot).contains_key(b));
    assert(post.chosen_at(slot, b) && post.vote_value(slot, b) == value);
}

/// Whether `v` is a value a round for this slot was allowed to propose: the
/// caller's own value, or one already recorded for the slot. Values are
/// never invented by the protocol (validity).
pub open spec fn value_from(pre: &Cluster, slot: u64, proposed: Seq<u8>, v: Seq<u8>) -> bool {
    v == proposed || exists|b: u64|
        #[trigger] pre.votes(slot).contains_key(b) && pre.votes(slot)[b].value == v
}

/// A value allowed against an intermediate history is allowed against the
/// history it grew from, as long as the growth itself only added allowed
/// values.
proof fn lemma_value_from_trans(c0: &Cluster, mid: &Cluster, slot: u64, proposed: Seq<u8>, v: Seq<u8>)
    requires
        value_from(mid, slot, proposed, v),
        forall|b: u64|
            #[trigger] mid.votes(slot).contains_key(b) && !c0.votes(slot).contains_key(b)
                ==> value_from(c0, slot, proposed, mid.votes(slot)[b].value),
        forall|b: u64|
            #[trigger] c0.votes(slot).contains_key(b) ==> mid.votes(slot).contains_key(b)
                && mid.votes(slot)[b] == c0.votes(slot)[b],
    ensures
        value_from(c0, slot, proposed, v),
{
    if v != proposed {
        let b = choose|b: u64| #[trigger]
            mid.votes(slot).contains_key(b) && mid.votes(slot)[b].value == v;
        if c0.votes(slot).contains_key(b) {
            assert(c0.votes(slot)[b].value == v);
        }
    }
}

/// Whether every ballot of proposer `p` in `c`'s history is at most `p`'s
/// round: `p`'s next round is fresh.
pub open spec fn fresh_for(c: &Cluster, p: &Proposer) -> bool {
    forall|s: u64, b: u64|
        #[trigger] c.votes(s).contains_key(b) && spec_pid_node(b) == p.id as int
            ==> spec_pid_round(b) <= p.round as int
}

/// Whether every history entry `post` has beyond `pre` carries a ballot of
/// proposer `p`, within `p`'s rounds. With `lemma_fresh_for_other`, several
/// proposers with distinct node ids can share one cluster.
pub open spec fn only_new_ballots_of(pre: &Cluster, post: &Cluster, p: &Proposer) -> bool {
    forall|s: u64, b: u64|
        #[trigger] post.votes(s).contains_key(b) && !pre.votes(s).contains_key(b) ==> spec_pid_node(
            b,
        ) == p.id as int && spec_pid_round(b) <= p.round as int
}

/// Law: rounds run by one proposer keep every other proposer's next round
/// fresh, since node ids tell their ballots apart.
pub proof fn lemma_fresh_for_other(pre: &Cluster, post: &Cluster, p: &Proposer, q: &Proposer)
    requires
        fresh_for(pre, q),
        only_new_ballots_of(pre, post, p),
        p.id != q.id,
    ensures
        fresh_for(post, q),
{
    assert forall|s: u64, b: u64|
        #[trigger] post.votes(s).contains_key(b) && spec_pid_node(b) == q.id as int implies
        spec_pid_round(b) <= q.round as int by {
        if !pre.votes(s).contains_key(b) {
            assert(spec_pid_node(b) == p.id as int);
        }
    }
}

} // verus!
