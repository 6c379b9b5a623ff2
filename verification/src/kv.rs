//! The replicated log / key-value engine.
//!
//! A `Paxoskv` node owns a local durable store and a proposer. A client
//! operation becomes a log entry; the node allocates slots from its own
//! monotonic term counter and contends for them through consensus until its
//! entry wins one, applying every decided entry it sees along the way. All
//! nodes that walk the same slots apply the same decided entries — chosen
//! values are unique per slot — so their user data converges
//! (`lemma_log_agreement`). A persisted done marker per command id makes
//! retries of the same command harmless.

use crate::ballot::spec_pack_pid;
use crate::cluster::{
    fresh_for, lemma_chosen_unique, only_new_ballots_of, votes_preserved, Cluster,
};
use crate::codec::{encode_u64, spec_decode_u64};
use crate::keys::{
    cmd_key, lemma_categories_distinct, lemma_tagged_u64_injective, lemma_user_key_injective,
    spec_cmd_key, spec_term_key, spec_user_key, term_key, user_key_of, TAG_CMD,
};
use crate::proposer::Proposer;
use crate::store::{bytes_eq, clone_bytes, Persistor};
use vstd::bytes::{spec_u64_to_le_bytes, spec_u64_from_le_bytes, u64_from_le_bytes, u64_to_le_bytes};
use vstd::prelude::*;
use vstd::slice::{slice_subrange, slice_to_vec};

verus! {

/// The command id reserved for read barriers; it is never marked done, so
/// every read passes through consensus again.
pub const READ_SENTINEL: u64 = 0xFFFF_FFFF_FFFF_FFFF;

/// Wire tag of a read-barrier entry.
pub const OP_GET: u8 = 0;

/// Wire tag of a put entry.
pub const OP_SET: u8 = 1;

/// Wire tag of a remove entry.
pub const OP_REMOVE: u8 = 2;

/// One client operation, as carried by a log entry.
pub enum Operation {
    /// Read barrier: no effect on the store.
    Get { key: Vec<u8> },
    /// Bind `key` to `value`.
    Put { key: Vec<u8>, value: Vec<u8> },
    /// Remove `key`.
    Remove { key: Vec<u8> },
}

/// The mathematical shape of an operation.
pub ghost enum OpView {
    Get { key: Seq<u8> },
    Put { key: Seq<u8>, value: Seq<u8> },
    Remove { key: Seq<u8> },
}

impl View for Operation {
    type V = OpView;

    open spec fn view(&self) -> OpView {
        match self {
            Operation::Get { key } => OpView::Get { key: key@ },
            Operation::Put { key, value } => OpView::Put { key: key@, value: value@ },
            Operation::Remove { key } => OpView::Remove { key: key@ },
        }
    }
}

/// The payload proposed into a slot: a client-chosen command id and the
/// operation it asks for.
pub struct LogEntry {
    /// The client's command id, globally unique per logical operation.
    pub id: u64,
    /// The operation to apply.
    pub op: Operation,
}

/// The mathematical shape of a log entry.
pub ghost struct EntryView {
    pub id: u64,
    pub op: OpView,
}

impl View for LogEntry {
    type V = EntryView;

    open spec fn view(&self) -> EntryView {
        EntryView { id: self.id, op: self.op@ }
    }
}

/// The bytes a log entry travels as: the command id, an operation tag, and
/// the operation's fields (a set carries its key's length first, so the key
/// and value can be told apart).
pub open spec fn spec_encode_entry(e: EntryView) -> Seq<u8> {
    spec_u64_to_le_bytes(e.id) + match e.op {
        OpView::Get { key } => seq![OP_GET] + key,
        OpView::Put { key, value } => seq![OP_SET] + spec_u64_to_le_bytes(key.len() as u64) + key
            + value,
        OpView::Remove { key } => seq![OP_REMOVE] + key,
    }
}

/// What entry bytes mean; `None` if malformed.
pub open spec fn spec_decode_entry(s: Seq<u8>) -> Option<EntryView> {
    if s.len() < 9 {
        None
    } else {
        let id = spec_u64_from_le_bytes(s.subrange(0, 8));
        let tag = s[8];
        if tag == OP_GET {
            Some(EntryView { id, op: OpView::Get { key: s.skip(9) } })
        } else if tag == OP_REMOVE {
            Some(EntryView { id, op: OpView::Remove { key: s.skip(9) } })
        } else if tag == OP_SET {
            if s.len() < 17 {
                None
            } else {
                let klen = spec_u64_from_le_bytes(s.subrange(9 as int, 17 as int));
                if s.len() - 17 < klen as int {
                    None
                } else {
                    Some(
                        EntryView {
                            id,
                            op: OpView::Put {
                                key: s.subrange(17, 17 + klen as int),
                                value: s.skip(17 + klen as int),
                            },
                        },
                    )
                }
            }
        } else {
            None
        }
    }
}

/// Encoding a log entry and decoding the bytes returns the entry.
pub proof fn lemma_entry_roundtrip(e: EntryView)
    requires
        e.op matches OpView::Put { key, .. } ==> key.len() <= u64::MAX,
    ensures
        spec_decode_entry(spec_encode_entry(e)) == Some(e),
{
    crate::codec::lemma_u64_roundtrip(e.id, e.id);
    let s = spec_encode_entry(e);
    assert(s.subrange(0, 8) =~= spec_u64_to_le_bytes(e.id));
    match e.op {
        OpView::Get { key } => {
            assert(s[8] == OP_GET);
            assert(s.skip(9) =~= key);
        },
        OpView::Remove { key } => {
            assert(s[8] == OP_REMOVE);
            assert(s.skip(9) =~= key);
        },
        OpView::Put { key, value } => {
            let klen = key.len() as u64;
            crate::codec::lemma_u64_roundtrip(klen, klen);
            assert(s[8] == OP_SET);
            assert(s.subrange(9, 17) =~= spec_u64_to_le_bytes(klen));
            assert(s.subrange(17, 17 + klen as int) =~= key);
            assert(s.skip(17 + klen as int) =~= value);
        },
    }
}

/// Encodes a log entry.
pub fn encode_entry(e: &LogEntry) -> (r: Vec<u8>)
    ensures
        r@ == spec_encode_entry(e@),
{
    let mut r = u64_to_le_bytes(e.id);
    match &e.op {
        Operation::Get { key } => {
            r.push(OP_GET);
            let mut k = clone_bytes(key);
            r.append(&mut k);
        },
        Operation::Put { key, value } => {
            r.push(OP_SET);
            let mut l = u64_to_le_bytes(key.len() as u64);
            r.append(&mut l);
            let mut k = clone_bytes(key);
            r.append(&mut k);
            let mut v = clone_bytes(value);
            r.append(&mut v);
        },
        Operation::Remove { key } => {
            r.push(OP_REMOVE);
            let mut k = clone_bytes(key);
            r.append(&mut k);
        },
    }
    proof {
        assert(r@ =~= spec_encode_entry(e@));
    }
    r
}

/// Decodes a log entry, or reports malformed bytes.
pub fn decode_entry(s: &[u8]) -> (r: Option<LogEntry>)
    ensures
        match r {
            Some(e) => spec_decode_entry(s@) == Some(e@),
            None => spec_decode_entry(s@) is None,
        },
{
    if s.len() < 9 {
        return None;
    }
    let id = u64_from_le_bytes(slice_subrange(s, 0, 8));
    let tag = s[8];
    if tag == OP_GET || tag == OP_REMOVE {
        let key = slice_to_vec(slice_subrange(s, 9, s.len()));
        proof {
            assert(s@.skip(9) =~= s@.subrange(9, s@.len() as int));
        }
        if tag == OP_GET {
            Some(LogEntry { id, op: Operation::Get { key } })
        } else {
            Some(LogEntry { id, op: Operation::Remove { key } })
        }
    } else if tag == OP_SET {
        if s.len() < 17 {
            return None;
        }
        let klen = u64_from_le_bytes(slice_subrange(s, 9, 17));
        if klen > (s.len() - 17) as u64 {
            return None;
        }
        let kend = 17 + klen as usize;
        let key = slice_to_vec(slice_subrange(s, 17, kend));
        let value = slice_to_vec(slice_subrange(s, kend, s.len()));
        proof {
            assert(s@.skip(17 + klen as int) =~= s@.subrange(17 + klen as int, s@.len() as int));
        }
        Some(LogEntry { id, op: Operation::Put { key, value } })
    } else {
        None
    }
}

/// Why an engine operation failed.
#[derive(Debug, PartialEq, Eq, Clone, Copy)]
pub enum KvError {
    /// The round or slot budget ran out before the node's own entry won a
    /// slot; the caller may retry with the same command id.
    Unresolved,
    /// A decided value did not decode: a corrupt proposal reached the log.
    /// Fatal, never hidden.
    Corrupt,
}

/// The user-visible part of a store: what each user key is bound to.
pub open spec fn user_view_of(m: Map<Seq<u8>, Seq<u8>>) -> Map<Seq<u8>, Seq<u8>> {
    Map::new(|k: Seq<u8>| m.contains_key(spec_user_key(k)), |k: Seq<u8>| m[spec_user_key(k)])
}

/// The effect of one decided operation on the user view.
pub open spec fn apply_op_user(m: Map<Seq<u8>, Seq<u8>>, op: OpView) -> Map<Seq<u8>, Seq<u8>> {
    match op {
        OpView::Get { .. } => m,
        OpView::Put { key, value } => m.insert(key, value),
        OpView::Remove { key } => m.remove(key),
    }
}

/// The effect of a sequence of decided entries on the user view.
pub open spec fn apply_log_user(m: Map<Seq<u8>, Seq<u8>>, log: Seq<EntryView>) -> Map<
    Seq<u8>,
    Seq<u8>,
>
    decreases log.len(),
{
    if log.len() == 0 {
        m
    } else {
        apply_op_user(apply_log_user(m, log.drop_last()), log.last().op)
    }
}

/// Writing a non-user key leaves the user view alone.
proof fn lemma_user_view_other_write(m: Map<Seq<u8>, Seq<u8>>, key: Seq<u8>, val: Seq<u8>)
    requires
        forall|k: Seq<u8>| spec_user_key(k) != key,
    ensures
        user_view_of(m.insert(key, val)) == user_view_of(m),
{
    assert(user_view_of(m.insert(key, val)) =~= user_view_of(m));
}

/// Writing a user key updates the user view at that key alone.
proof fn lemma_user_view_user_write(m: Map<Seq<u8>, Seq<u8>>, k: Seq<u8>, val: Seq<u8>)
    ensures
        user_view_of(m.insert(spec_user_key(k), val)) == user_view_of(m).insert(k, val),
{
    assert(user_view_of(m.insert(spec_user_key(k), val)) =~= user_view_of(m).insert(k, val)) by {
        assert forall|k2: Seq<u8>|
            user_view_of(m.insert(spec_user_key(k), val)).contains_key(k2) <==> user_view_of(
                m,
            ).insert(k, val).contains_key(k2) by {
            if spec_user_key(k2) == spec_user_key(k) {
                lemma_user_key_injective(k2, k);
            }
        }
        assert forall|k2: Seq<u8>|
            user_view_of(m.insert(spec_user_key(k), val)).contains_key(k2) implies user_view_of(
            m.insert(spec_user_key(k), val),
        )[k2] == user_view_of(m).insert(k, val)[k2] by {
            if spec_user_key(k2) == spec_user_key(k) {
                lemma_user_key_injective(k2, k);
            }
        }
    }
}

/// Removing a user key removes it from the user view alone.
proof fn lemma_user_view_user_remove(m: Map<Seq<u8>, Seq<u8>>, k: Seq<u8>)
    ensures
        user_view_of(m.remove(spec_user_key(k))) == user_view_of(m).remove(k),
{
    assert(user_view_of(m.remove(spec_user_key(k))) =~= user_view_of(m).remove(k)) by {
        assert forall|k2: Seq<u8>|
            user_view_of(m.remove(spec_user_key(k))).contains_key(k2) <==> user_view_of(
                m,
            ).remove(k).contains_key(k2) by {
            if spec_user_key(k2) == spec_user_key(k) {
                lemma_user_key_injective(k2, k);
            }
        }
    }
}

/// Every store key of another category differs from every user key.
proof fn lemma_not_user_key_term(key: Seq<u8>)
    requires
        key == spec_term_key(),
    ensures
        forall|k: Seq<u8>| spec_user_key(k) != key,
{
    assert forall|k: Seq<u8>| spec_user_key(k) != key by {
        lemma_categories_distinct(k, 0, 0);
    }
}

/// Every command marker key differs from every user key.
proof fn lemma_not_user_key_cmd(key: Seq<u8>, id: u64)
    requires
        key == spec_cmd_key(id),
    ensures
        forall|k: Seq<u8>| spec_user_key(k) != key,
{
    assert forall|k: Seq<u8>| spec_user_key(k) != key by {
        lemma_categories_distinct(k, id, 0);
    }
}

/// How one node's state advanced during an append: its user data moved by
/// exactly `log`, the decided entries of the consecutive slots it walked.
/// `logbytes[j]` is the raw value chosen for the `j`-th walked slot, and
/// `log[j]` what it decodes to.
pub open spec fn advanced_by(
    pre: Paxoskv,
    post: Paxoskv,
    cpost: Cluster,
    slots: int,
    log: Seq<EntryView>,
    logbytes: Seq<Seq<u8>>,
) -> bool {
    &&& apply_log_user(pre.user_view(), log) == post.user_view()
    &&& log.len() <= slots
    &&& logbytes.len() == log.len()
    &&& post.term() == pre.term() + log.len()
    &&& forall|j: int|
        #![trigger logbytes[j]]
        0 <= j < log.len() ==> cpost.chosen((pre.term() + 1 + j) as u64, logbytes[j])
            && spec_decode_entry(logbytes[j]) == Some(log[j])
}

/// One key-value node: a local durable store, a proposer, and the node's
/// term counter (the next slot to contend for).
pub struct Paxoskv {
    store: Persistor,
    proposer: Proposer,
    id: u32,
    term: u64,
}

impl Paxoskv {
    /// Whether the underlying store is well formed.
    pub closed spec fn wf(&self) -> bool {
        self.store.wf()
    }

    /// The node's persistent state, as a key-to-bytes map.
    pub closed spec fn state(&self) -> Map<Seq<u8>, Seq<u8>> {
        self.store@
    }

    /// The node's proposer.
    pub closed spec fn prop(&self) -> Proposer {
        self.proposer
    }

    /// The node's current term: the next candidate slot is `term + 1`.
    pub closed spec fn term(&self) -> u64 {
        self.term
    }

    /// What the node's store binds a user key to.
    pub open spec fn user_val(&self, key: Seq<u8>) -> Option<Seq<u8>> {
        if self.state().contains_key(spec_user_key(key)) {
            Some(self.state()[spec_user_key(key)])
        } else {
            None
        }
    }

    /// The node's user-visible data.
    pub open spec fn user_view(&self) -> Map<Seq<u8>, Seq<u8>> {
        user_view_of(self.state())
    }

    /// Whether a command id is marked done.
    pub open spec fn cmd_done(&self, id: u64) -> bool {
        self.state().contains_key(spec_cmd_key(id))
    }

    /// Creates a fresh node with the given unique node id.
    pub fn new(id: u32) -> (kv: Paxoskv)
        ensures
            kv.wf(),
            kv.term() == 0,
            kv.prop().id == id,
            kv.prop().round == 0,
            kv.state() == Map::<Seq<u8>, Seq<u8>>::empty(),
            forall|k: Seq<u8>| #[trigger] kv.user_val(k) is None,
            forall|c: u64| !(#[trigger] kv.cmd_done(c)),
    {
        Paxoskv { store: Persistor::new(), proposer: Proposer::new(id), id, term: 0 }
    }

    /// Rebuilds a node from a dumped store, reloading the persisted term.
    /// A term entry that does not decode is corruption and is reported, not
    /// hidden; an absent entry means a fresh node.
    pub fn from_persistor(id: u32, store: Persistor) -> (r: Result<Paxoskv, KvError>)
        requires
            store.wf(),
        ensures
            match r {
                Ok(kv) => {
                    &&& kv.wf()
                    &&& kv.state() == store@
                    &&& kv.prop().id == id
                    &&& kv.prop().round == 0
                    &&& (store@.contains_key(spec_term_key()) ==> Some(kv.term())
                        == spec_decode_u64(store@[spec_term_key()]))
                    &&& (!store@.contains_key(spec_term_key()) ==> kv.term() == 0)
                },
                Err(e) => {
                    &&& e == KvError::Corrupt
                    &&& store@.contains_key(spec_term_key())
                    &&& spec_decode_u64(store@[spec_term_key()]) is None
                },
            },
    {
        let tk = term_key();
        let term: u64 = match store.get(tk.as_slice()) {
            None => 0,
            Some(v) => match crate::codec::decode_u64(v.as_slice()) {
                Some(t) => t,
                None => {
                    return Err(KvError::Corrupt);
                },
            },
        };
        Ok(Paxoskv { store, proposer: Proposer::new(id), id, term })
    }

    /// Copies the node's persistent state out, for the embedding program to
    /// write to disk.
    pub fn dump(&self) -> (r: Vec<(Vec<u8>, Vec<u8>)>)
        requires
            self.wf(),
        ensures
            crate::store::entries_map(r@) == self.state(),
            crate::store::entries_unique(r@),
    {
        self.store.dump()
    }

    /// The current term, for an embedding that drives its own slot walk.
    pub fn term_value(&self) -> (r: u64)
        ensures
            r == self.term(),
    {
        self.term
    }

    /// Whether a command id is marked done.
    pub fn cmd_marked(&self, cmd_id: u64) -> (r: bool)
        requires
            self.wf(),
        ensures
            r == self.cmd_done(cmd_id),
    {
        let ck = cmd_key(cmd_id);
        self.store.contains(ck.as_slice())
    }

    /// Reads a user key from the local store only; the answer may be stale
    /// relative to the global log tail.
    pub fn get_local(&self, key: &Vec<u8>) -> (r: Option<Vec<u8>>)
        requires
            self.wf(),
        ensures
            match r {
                Some(v) => self.user_val(key@) == Some(v@),
                None => self.user_val(key@) is None,
            },
    {
        let uk = user_key_of(key.as_slice());
        self.store.get(uk.as_slice())
    }

    /// The conditions under which an append owes success: a fault-free
    /// cluster with no promise past the node's next ballot and nothing
    /// accepted for the node's next slot, and at least one slot and one
    /// round of budget. A first round then decides the node's own entry.
    pub open spec fn success_owed(&self, c: &Cluster, rounds: int, slots: int) -> bool {
        &&& c.faults_off()
        &&& rounds >= 1
        &&& slots >= 1
        &&& c.pids_at_most(
            (self.term() + 1) as u64,
            spec_pack_pid((self.prop().round + 1) as u32, self.prop().id),
        )
        &&& forall|i: int|
            0 <= i < c.n() ==> (#[trigger] c.acc_accepted(i, (self.term() + 1) as u64)) is None
    }

    /// Marks a command done; the marker's presence is the fact. Touches no
    /// user data, no other marker, and not the term.
    pub fn mark_done(&mut self, cmd_id: u64)
        requires
            old(self).wf(),
        ensures
            final (self).wf(),
            final (self).prop() == old(self).prop(),
            final (self).term() == old(self).term(),
            final (self).user_view() == old(self).user_view(),
            forall|k: Seq<u8>| #[trigger] final (self).user_val(k) == old(self).user_val(k),
            final (self).cmd_done(cmd_id),
            forall|c: u64|
                c != cmd_id ==> #[trigger] final (self).cmd_done(c) == old(self).cmd_done(c),
            final (self).state().contains_key(spec_term_key()) == old(self).state().contains_key(
                spec_term_key(),
            ),
            old(self).state().contains_key(spec_term_key()) ==> final (self).state()[
                spec_term_key()] == old(self).state()[spec_term_key()],
    {
        let ghost st0 = self.state();
        let ck = cmd_key(cmd_id);
        let marker: Vec<u8> = Vec::new();
        self.store.set(ck, marker);
        proof {
            lemma_not_user_key_cmd(spec_cmd_key(cmd_id), cmd_id);
            lemma_user_view_other_write(st0, spec_cmd_key(cmd_id), Seq::empty());
            assert forall|k: Seq<u8>| #[trigger] self.user_val(k) == old(self).user_val(k) by {
                assert(spec_user_key(k) != spec_cmd_key(cmd_id));
            }
            assert forall|c: u64| c != cmd_id implies #[trigger] self.cmd_done(c) == old(
                self,
            ).cmd_done(c) by {
                if spec_cmd_key(c) == spec_cmd_key(cmd_id) {
                    lemma_tagged_u64_injective(TAG_CMD, c, cmd_id);
                }
            }
            lemma_categories_distinct(Seq::empty(), cmd_id, 0);
        }
    }

    /// Applies one decided slot value: advances the term by one, persists
    /// it, and applies the decoded entry's operation to the user data —
    /// what every node does for every slot it walks, whoever proposed the
    /// winning entry. Bytes that do not decode are corruption, reported
    /// with nothing changed. Done markers are untouched; marking a won
    /// command is `mark_done`'s.
    pub fn apply_decided(&mut self, decided: &Vec<u8>) -> (r: Result<LogEntry, KvError>)
        requires
            old(self).wf(),
            old(self).term() < u64::MAX,
        ensures
            final (self).wf(),
            final (self).prop() == old(self).prop(),
            match r {
                Err(e) => {
                    &&& e == KvError::Corrupt
                    &&& *final (self) == *old(self)
                    &&& spec_decode_entry(decided@) is None
                },
                Ok(e) => {
                    &&& spec_decode_entry(decided@) == Some(e@)
                    &&& final (self).term() == old(self).term() + 1
                    &&& final (self).user_view() == apply_op_user(old(self).user_view(), e@.op)
                    &&& (e@.op matches OpView::Put { key, value } ==> final (self).user_val(key)
                        == Some(value))
                    &&& (e@.op matches OpView::Remove { key } ==> final (self).user_val(
                        key,
                    ) is None)
                    &&& final (self).state().contains_key(spec_term_key())
                    &&& final (self).state()[spec_term_key()] == spec_u64_to_le_bytes(
                        final (self).term(),
                    )
                    &&& forall|c: u64| #[trigger] final (self).cmd_done(c) == old(self).cmd_done(c)
                },
            },
    {
        let e = match decode_entry(decided.as_slice()) {
            Some(e) => e,
            None => {
                return Err(KvError::Corrupt);
            },
        };
        let candidate = self.term + 1;
        self.term = candidate;
        let ghost st0 = self.state();
        let ghost uv0 = self.user_view();
        let tk = term_key();
        self.store.set(tk, encode_u64(candidate));
        proof {
            lemma_not_user_key_term(spec_term_key());
            lemma_user_view_other_write(st0, spec_term_key(), spec_u64_to_le_bytes(candidate));
            assert(self.user_view() == uv0);
            assert forall|c: u64| #[trigger] self.cmd_done(c) == old(self).cmd_done(c) by {
                lemma_categories_distinct(Seq::empty(), c, 0);
            }
        }
        match &e.op {
            Operation::Get { .. } => {
                proof {
                    assert(self.user_view() == apply_op_user(uv0, e.op@));
                }
            },
            Operation::Put { key, value } => {
                let uk = user_key_of(key.as_slice());
                let ghost st1 = self.state();
                let v2 = clone_bytes(value);
                self.store.set(uk, v2);
                proof {
                    lemma_user_view_user_write(st1, key@, value@);
                    assert(self.user_view() == apply_op_user(uv0, e.op@));
                    lemma_categories_distinct(key@, 0, 0);
                    assert(self.state()[spec_term_key()] == spec_u64_to_le_bytes(candidate));
                    assert forall|c: u64| #[trigger] self.cmd_done(c) == old(self).cmd_done(c) by {
                        lemma_categories_distinct(key@, c, 0);
                    }
                }
            },
            Operation::Remove { key } => {
                let uk = user_key_of(key.as_slice());
                let ghost st1 = self.state();
                self.store.delete(uk.as_slice());
                proof {
                    lemma_user_view_user_remove(st1, key@);
                    assert(self.user_view() == apply_op_user(uv0, e.op@));
                    lemma_categories_distinct(key@, 0, 0);
                    assert(self.state()[spec_term_key()] == spec_u64_to_le_bytes(candidate));
                    assert forall|c: u64| #[trigger] self.cmd_done(c) == old(self).cmd_done(c) by {
                        lemma_categories_distinct(key@, c, 0);
                    }
                }
            },
        }
        Ok(e)
    }

    /// Appends one entry to the log under `cmd_id`. A command already marked
    /// done returns at once with nothing changed (the idempotent retry path).
    /// Otherwise the node walks its term counter, contending for each next
    /// slot with its own encoded entry until that entry wins one, and
    /// applies every decided entry it passes: its user data advances by
    /// exactly the log of chosen entries of the slots it walked, whichever
    /// node proposed them, and success means the last walked slot decided
    /// the caller's own entry.
    ///
    /// `slots` bounds how many terms are tried and `rounds` how many ballots
    /// each term gets; `KvError::Unresolved` says the budget ran out and the
    /// caller may retry with the same command id.
    #[verifier::loop_isolation(false)]
    #[verifier::rlimit(100)]
    #[verifier::spinoff_prover]
    pub fn append(
        &mut self,
        cluster: &mut Cluster,
        cmd_id: u64,
        op: Operation,
        rounds: usize,
        slots: usize,
    ) -> (r: Result<(), KvError>)
        requires
            old(self).wf(),
            old(cluster).inv(),
            fresh_for(old(cluster), &old(self).prop()),
            old(self).prop().round as int + slots as int * rounds as int <= u32::MAX as int,
            old(self).term() as int + slots as int <= u64::MAX as int,
            // only read barriers may use the reserved sentinel id: a mutating
            // command under it would be marked done and break every later read
            !(op@ is Get) ==> cmd_id != READ_SENTINEL,
        ensures
            final (self).wf(),
            final (cluster).inv(),
            final (cluster).n() == old(cluster).n(),
            votes_preserved(old(cluster), final (cluster)),
            fresh_for(final (cluster), &final (self).prop()),
            only_new_ballots_of(old(cluster), final (cluster), &final (self).prop()),
            final (self).prop().id == old(self).prop().id,
            final (self).prop().round as int <= old(self).prop().round as int + slots as int
                * rounds as int,
            old(cluster).faults_off() ==> final (cluster).faults_off(),
            old(self).cmd_done(cmd_id) ==> r is Ok && *final (self) == *old(self) && *final (cluster) == *old(cluster),
            // done markers move only as this command's outcome says
            forall|c: u64|
                c != cmd_id ==> #[trigger] final (self).cmd_done(c) == old(self).cmd_done(c),
            final (self).cmd_done(cmd_id) <==> (old(self).cmd_done(cmd_id) || (r is Ok && !(
            op@ is Get))),
            // success on a fresh command means slots were walked and the
            // caller's own entry won the last one
            r is Ok && !old(self).cmd_done(cmd_id) ==> final (self).term() > old(self).term(),
            op@ matches OpView::Put { key, value } ==> (r is Ok && !old(self).cmd_done(cmd_id)
                ==> final (self).user_val(key) == Some(value)),
            op@ matches OpView::Remove { key } ==> (r is Ok && !old(self).cmd_done(cmd_id)
                ==> final (self).user_val(key) is None),
            r == Err::<(), KvError>(KvError::Unresolved) ==> !old(self).cmd_done(cmd_id),
            r == Err::<(), KvError>(KvError::Corrupt) ==> !old(self).cmd_done(cmd_id) && (
            exists|bs: Seq<u8>|
                #[trigger] final (cluster).chosen((final (self).term() + 1) as u64, bs)
                    && spec_decode_entry(bs) is None),
            old(self).success_owed(old(cluster), rounds as int, slots as int) && !old(
                self,
            ).cmd_done(cmd_id) ==> r is Ok,
            exists|log: Seq<EntryView>, logbytes: Seq<Seq<u8>>|
                {
                    &&& #[trigger] advanced_by(
                        *old(self),
                        *final (self),
                        *final (cluster),
                        slots as int,
                        log,
                        logbytes,
                    )
                    &&& (log.len() > 0 ==> final (self).state().contains_key(spec_term_key())
                        && final (self).state()[spec_term_key()] == spec_u64_to_le_bytes(
                            final (self).term(),
                        ))
                    &&& (r is Ok && !old(self).cmd_done(cmd_id) ==> log.len() > 0 && log.last()
                        == EntryView { id: cmd_id, op: op@ } && logbytes.last()
                        == spec_encode_entry(EntryView { id: cmd_id, op: op@ }))
                },
    {
        let ck = cmd_key(cmd_id);
        if self.store.contains(ck.as_slice()) {
            proof {
                let log0 = Seq::<EntryView>::empty();
                assert(apply_log_user(old(self).user_view(), log0) == self.user_view());
                assert(advanced_by(
                    *old(self),
                    *self,
                    *cluster,
                    slots as int,
                    log0,
                    Seq::<Seq<u8>>::empty(),
                ));
            }
            return Ok(());
        }
        let ent = LogEntry { id: cmd_id, op };
        let bytes = encode_entry(&ent);
        proof {
            // the entry's own encoding decodes back to it
            match &ent.op {
                Operation::Put { key, .. } => {
                    assert(key@.len() == key.len());
                    assert(key@.len() <= u64::MAX);
                },
                _ => {},
            }
            lemma_entry_roundtrip(ent@);
            assert(spec_decode_entry(bytes@) == Some(ent@));
        }
        let ghost c0 = *old(cluster);
        let ghost kv0 = *old(self);
        let ghost mut log: Seq<EntryView> = Seq::empty();
        let ghost mut logbytes: Seq<Seq<u8>> = Seq::empty();
        let mut t: usize = 0;
        proof {
            assert(apply_log_user(kv0.user_view(), log) == self.user_view());
            assert(advanced_by(kv0, *self, *cluster, slots as int, log, logbytes));
        }
        while t < slots
            invariant
                t <= slots,
                self.wf(),
                cluster.inv(),
                cluster.n() == c0.n(),
                self.proposer.id == kv0.proposer.id,
                self.proposer.round as int <= kv0.proposer.round as int + t as int * rounds as int,
                self.term == kv0.term + t,
                fresh_for(cluster, &self.prop()),
                only_new_ballots_of(&c0, cluster, &self.prop()),
                c0.faults_off() ==> cluster.faults_off(),
                forall|s: u64, b: u64| #[trigger]
                    c0.votes(s).contains_key(b) ==> cluster.votes(s).contains_key(b)
                        && cluster.votes(s)[b] == c0.votes(s)[b],
                log.len() == t as int,
                kv0 == *old(self),
                advanced_by(kv0, *self, *cluster, slots as int, log, logbytes),
                forall|c: u64| #[trigger] self.cmd_done(c) == kv0.cmd_done(c),
                log.len() > 0 ==> self.state().contains_key(spec_term_key())
                    && self.state()[spec_term_key()] == spec_u64_to_le_bytes(self.term()),
                kv0.success_owed(&c0, rounds as int, slots as int) ==> t == 0 && *cluster == c0
                    && self.proposer == kv0.proposer,
            decreases slots - t,
        {
            proof {
                assert(t as int * rounds as int + rounds as int == (t as int + 1) * rounds as int)
                    by (nonlinear_arith);
                assert((t as int + 1) * rounds as int <= slots as int * rounds as int)
                    by (nonlinear_arith)
                    requires
                        t as int + 1 <= slots as int,
                        rounds as int >= 0,
                ;
            }
            let ghost kvstart = *self;
            let candidate = self.term + 1;
            let ghost clpre = *cluster;
            let ghost propmid = self.proposer;
            let got = cluster.choose_value(&mut self.proposer, candidate, &bytes, rounds);
            proof {
                assert forall|s2: u64, b: u64| #[trigger]
                    cluster.votes(s2).contains_key(b) && !c0.votes(s2).contains_key(b) implies
                    crate::ballot::spec_pid_node(b) == self.proposer.id as int
                        && crate::ballot::spec_pid_round(b) <= self.proposer.round as int by {
                    if clpre.votes(s2).contains_key(b) {
                        assert(crate::ballot::spec_pid_node(b) == propmid.id as int
                            && crate::ballot::spec_pid_round(b) <= propmid.round as int);
                    }
                }
            }
            let decided_bytes = match got {
                Some(v) => v,
                None => {
                    proof {
                        if kv0.success_owed(&c0, rounds as int, slots as int) {
                            // a first round under these conditions decides
                            assert(false);
                        }
                        assert forall|j: int|
                            #![trigger logbytes[j]]
                            0 <= j < log.len() implies cluster.chosen(
                            (kv0.term() + 1 + j) as u64,
                            logbytes[j],
                        ) && spec_decode_entry(logbytes[j]) == Some(log[j]) by {
                            crate::cluster::lemma_chosen_stable(
                                &clpre,
                                cluster,
                                (kv0.term() + 1 + j) as u64,
                                logbytes[j],
                            );
                        }
                        assert(advanced_by(kv0, *self, *cluster, slots as int, log, logbytes));
                        assert forall|c: u64| #[trigger] self.cmd_done(c) == kv0.cmd_done(
                            c,
                        ) by {
                            assert(self.state() == kvstart.state());
                            assert(kvstart.cmd_done(c) == kv0.cmd_done(c));
                        }
                    }
                    return Err(KvError::Unresolved);
                },
            };
            proof {
                assert forall|j: int|
                    #![trigger logbytes[j]]
                    0 <= j < log.len() implies cluster.chosen(
                    (kv0.term() + 1 + j) as u64,
                    logbytes[j],
                ) && spec_decode_entry(logbytes[j]) == Some(log[j]) by {
                    crate::cluster::lemma_chosen_stable(
                        &clpre,
                        cluster,
                        (kv0.term() + 1 + j) as u64,
                        logbytes[j],
                    );
                }
                if kv0.success_owed(&c0, rounds as int, slots as int) {
                    // the virgin slot decided the caller's own value
                    assert(decided_bytes@ == bytes@);
                }
            }
            let ghost kvpre = *self;
            let decided = match self.apply_decided(&decided_bytes) {
                Ok(e) => e,
                Err(_) => {
                    proof {
                        if kv0.success_owed(&c0, rounds as int, slots as int) {
                            assert(spec_decode_entry(decided_bytes@) == Some(ent@));
                            assert(false);
                        }
                        assert(advanced_by(kv0, *self, *cluster, slots as int, log, logbytes));
                        assert(cluster.chosen((self.term() + 1) as u64, decided_bytes@));
                        assert forall|c: u64| #[trigger] self.cmd_done(c) == kv0.cmd_done(
                            c,
                        ) by {
                            assert(self.state() == kvstart.state());
                            assert(kvstart.cmd_done(c) == kv0.cmd_done(c));
                        }
                    }
                    return Err(KvError::Corrupt);
                },
            };
            proof {
                let logpre = log;
                let logbytespre = logbytes;
                log = log.push(decided@);
                logbytes = logbytes.push(decided_bytes@);
                assert(log.drop_last() =~= logpre);
                assert(log.last() == decided@);
                assert(log[t as int] == decided@);
                assert(logbytes[t as int] == decided_bytes@);
                assert(apply_log_user(kv0.user_view(), logpre) == kvpre.user_view());
                assert(self.user_view() == apply_op_user(kvpre.user_view(), decided@.op));
                assert(apply_log_user(kv0.user_view(), log) == self.user_view());
                assert(candidate as int == kv0.term() as int + 1 + t as int);
                assert(cluster.chosen((kv0.term() + 1 + t as int) as u64, decided_bytes@));
                assert(spec_decode_entry(decided_bytes@) == Some(decided@));
                assert forall|j: int|
                    #![trigger logbytes[j]]
                    0 <= j < log.len() implies cluster.chosen(
                    (kv0.term() + 1 + j) as u64,
                    logbytes[j],
                ) && spec_decode_entry(logbytes[j]) == Some(log[j]) by {
                    if j < t as int {
                        assert(log[j] == logpre[j]);
                        assert(logbytes[j] == logbytespre[j]);
                    }
                }
                assert(advanced_by(kv0, *self, *cluster, slots as int, log, logbytes));
                assert forall|c: u64| #[trigger] self.cmd_done(c) == kv0.cmd_done(c) by {
                    assert(self.cmd_done(c) == kvpre.cmd_done(c));
                    assert(kvpre.state() == kvstart.state());
                    assert(kvstart.cmd_done(c) == kv0.cmd_done(c));
                }
            }
            let won = bytes_eq(decided_bytes.as_slice(), bytes.as_slice());
            if won {
                // the decided bytes are the caller's own encoding, so the
                // applied entry is the caller's entry; under the command-id
                // caller contract this is the protocol's id test
                proof {
                    assert(decided_bytes@ == bytes@);
                    assert(spec_decode_entry(decided_bytes@) == Some(decided@));
                    assert(decided@ == ent@);
                }
                let ghost kvwon = *self;
                match &ent.op {
                    Operation::Get { .. } => {
                        // a read barrier is never marked done
                    },
                    _ => {
                        self.mark_done(cmd_id);
                    },
                }
                proof {
                    assert forall|c: u64|
                        c != cmd_id implies #[trigger] self.cmd_done(c) == kv0.cmd_done(c) by {
                        assert(self.cmd_done(c) == kvwon.cmd_done(c));
                        assert(kvwon.cmd_done(c) == kv0.cmd_done(c));
                    }
                    match ent@.op {
                        OpView::Get { .. } => {
                            assert(self.cmd_done(cmd_id) == kv0.cmd_done(cmd_id));
                        },
                        _ => {
                            assert(self.cmd_done(cmd_id));
                        },
                    }
                    assert(advanced_by(kv0, *self, *cluster, slots as int, log, logbytes));
                    match ent@.op {
                        OpView::Put { key, value } => {
                            assert(self.user_val(key) == Some(value));
                        },
                        OpView::Remove { key } => {
                            assert(self.user_val(key) is None);
                        },
                        OpView::Get { .. } => {},
                    }
                }
                return Ok(());
            }
            proof {
                if kv0.success_owed(&c0, rounds as int, slots as int) {
                    // the first slot decided the caller's bytes, so the win
                    // test cannot have failed
                    assert(decided_bytes@ == bytes@);
                    assert(false);
                }
            }
            t = t + 1;
        }
        proof {
            if kv0.success_owed(&c0, rounds as int, slots as int) {
                assert(false);
            }
        }
        Err(KvError::Unresolved)
    }

    /// Replicates `set(cmd_id, key, value)`: on a fresh command, success
    /// means the node's own entry won a slot and the key now holds the
    /// value; once it succeeds, retrying with the same command id changes
    /// nothing, however often.
    pub fn set(
        &mut self,
        cluster: &mut Cluster,
        cmd_id: u64,
        key: Vec<u8>,
        value: Vec<u8>,
        rounds: usize,
        slots: usize,
    ) -> (r: Result<(), KvError>)
        requires
            old(self).wf(),
            old(cluster).inv(),
            fresh_for(old(cluster), &old(self).prop()),
            old(self).prop().round as int + slots as int * rounds as int <= u32::MAX as int,
            old(self).term() as int + slots as int <= u64::MAX as int,
            cmd_id != READ_SENTINEL,
        ensures
            final (self).wf(),
            final (cluster).inv(),
            final (cluster).n() == old(cluster).n(),
            votes_preserved(old(cluster), final (cluster)),
            fresh_for(final (cluster), &final (self).prop()),
            only_new_ballots_of(old(cluster), final (cluster), &final (self).prop()),
            final (self).prop().id == old(self).prop().id,
            final (self).prop().round as int <= old(self).prop().round as int + slots as int
                * rounds as int,
            old(cluster).faults_off() ==> final (cluster).faults_off(),
            old(self).cmd_done(cmd_id) ==> r is Ok && *final (self) == *old(self) && *final (cluster) == *old(cluster),
            forall|c: u64|
                c != cmd_id ==> #[trigger] final (self).cmd_done(c) == old(self).cmd_done(c),
            final (self).cmd_done(cmd_id) <==> (old(self).cmd_done(cmd_id) || r is Ok),
            r is Ok && !old(self).cmd_done(cmd_id) ==> final (self).user_val(key@) == Some(value@)
                && final (self).term() > old(self).term(),
            r == Err::<(), KvError>(KvError::Unresolved) ==> !old(self).cmd_done(cmd_id),
            r == Err::<(), KvError>(KvError::Corrupt) ==> exists|bs: Seq<u8>|
                #[trigger] final (cluster).chosen((final (self).term() + 1) as u64, bs)
                    && spec_decode_entry(bs) is None,
            old(self).success_owed(old(cluster), rounds as int, slots as int) && !old(
                self,
            ).cmd_done(cmd_id) ==> r is Ok,
            exists|log: Seq<EntryView>, logbytes: Seq<Seq<u8>>|
                #[trigger] advanced_by(
                    *old(self),
                    *final (self),
                    *final (cluster),
                    slots as int,
                    log,
                    logbytes,
                ),
    {
        self.append(cluster, cmd_id, Operation::Put { key, value }, rounds, slots)
    }

    /// Replicates `remove(cmd_id, key)`: on a fresh command, success means
    /// the node's own entry won a slot and the key is now absent; retries
    /// with the same command id are no-ops.
    pub fn remove(
        &mut self,
        cluster: &mut Cluster,
        cmd_id: u64,
        key: Vec<u8>,
        rounds: usize,
        slots: usize,
    ) -> (r: Result<(), KvError>)
        requires
            old(self).wf(),
            old(cluster).inv(),
            fresh_for(old(cluster), &old(self).prop()),
            old(self).prop().round as int + slots as int * rounds as int <= u32::MAX as int,
            old(self).term() as int + slots as int <= u64::MAX as int,
            cmd_id != READ_SENTINEL,
        ensures
            final (self).wf(),
            final (cluster).inv(),
            final (cluster).n() == old(cluster).n(),
            votes_preserved(old(cluster), final (cluster)),
            fresh_for(final (cluster), &final (self).prop()),
            only_new_ballots_of(old(cluster), final (cluster), &final (self).prop()),
            final (self).prop().id == old(self).prop().id,
            final (self).prop().round as int <= old(self).prop().round as int + slots as int
                * rounds as int,
            old(cluster).faults_off() ==> final (cluster).faults_off(),
            old(self).cmd_done(cmd_id) ==> r is Ok && *final (self) == *old(self) && *final (cluster) == *old(cluster),
            forall|c: u64|
                c != cmd_id ==> #[trigger] final (self).cmd_done(c) == old(self).cmd_done(c),
            final (self).cmd_done(cmd_id) <==> (old(self).cmd_done(cmd_id) || r is Ok),
            r is Ok && !old(self).cmd_done(cmd_id) ==> final (self).user_val(key@) is None
                && final (self).term() > old(self).term(),
            r == Err::<(), KvError>(KvError::Unresolved) ==> !old(self).cmd_done(cmd_id),
            r == Err::<(), KvError>(KvError::Corrupt) ==> exists|bs: Seq<u8>|
                #[trigger] final (cluster).chosen((final (self).term() + 1) as u64, bs)
                    && spec_decode_entry(bs) is None,
            old(self).success_owed(old(cluster), rounds as int, slots as int) && !old(
                self,
            ).cmd_done(cmd_id) ==> r is Ok,
            exists|log: Seq<EntryView>, logbytes: Seq<Seq<u8>>|
                #[trigger] advanced_by(
                    *old(self),
                    *final (self),
                    *final (cluster),
                    slots as int,
                    log,
                    logbytes,
                ),
    {
        self.append(cluster, cmd_id, Operation::Remove { key }, rounds, slots)
    }

    /// A linearizable read: appends a read barrier under the reserved
    /// sentinel id, then reads the local store, now ordered after every
    /// operation that precedes the barrier in the log. A read marks nothing
    /// done — no command id ever is by a read — so as long as no client
    /// writes under the sentinel id, the sentinel stays unmarked and every
    /// read walks at least one slot through consensus.
    pub fn get(&mut self, cluster: &mut Cluster, key: &Vec<u8>, rounds: usize, slots: usize) -> (r:
        Result<Option<Vec<u8>>, KvError>)
        requires
            old(self).wf(),
            old(cluster).inv(),
            fresh_for(old(cluster), &old(self).prop()),
            old(self).prop().round as int + slots as int * rounds as int <= u32::MAX as int,
            old(self).term() as int + slots as int <= u64::MAX as int,
        ensures
            final (self).wf(),
            final (cluster).inv(),
            final (cluster).n() == old(cluster).n(),
            votes_preserved(old(cluster), final (cluster)),
            fresh_for(final (cluster), &final (self).prop()),
            only_new_ballots_of(old(cluster), final (cluster), &final (self).prop()),
            final (self).prop().id == old(self).prop().id,
            final (self).prop().round as int <= old(self).prop().round as int + slots as int
                * rounds as int,
            old(cluster).faults_off() ==> final (cluster).faults_off(),
            forall|c: u64| #[trigger] final (self).cmd_done(c) == old(self).cmd_done(c),
            r is Ok && !old(self).cmd_done(READ_SENTINEL) ==> final (self).term() > old(
                self,
            ).term(),
            old(self).success_owed(old(cluster), rounds as int, slots as int) && !old(
                self,
            ).cmd_done(READ_SENTINEL) ==> r is Ok,
            r matches Ok(v) ==> match v {
                Some(vv) => final (self).user_val(key@) == Some(vv@),
                None => final (self).user_val(key@) is None,
            },
            exists|log: Seq<EntryView>, logbytes: Seq<Seq<u8>>|
                #[trigger] advanced_by(
                    *old(self),
                    *final (self),
                    *final (cluster),
                    slots as int,
                    log,
                    logbytes,
                ),
    {
        let k2 = clone_bytes(key);
        match self.append(cluster, READ_SENTINEL, Operation::Get { key: k2 }, rounds, slots) {
            Ok(()) => Ok(self.get_local(key)),
            Err(e) => Err(e),
        }
    }
}

/// Law (cross-node convergence): two nodes that walked the same slots saw
/// the same decided entries, because a slot's chosen value is unique; with
/// equal logs, replaying from equal user data ends in equal user data, so
/// every node's user view of a fully walked log agrees.
pub proof fn lemma_log_agreement(
    c: &Cluster,
    base: u64,
    log1: Seq<EntryView>,
    logbytes1: Seq<Seq<u8>>,
    log2: Seq<EntryView>,
    logbytes2: Seq<Seq<u8>>,
)
    requires
        c.inv(),
        log1.len() == log2.len(),
        logbytes1.len() == log1.len(),
        logbytes2.len() == log2.len(),
        forall|j: int|
            #![trigger logbytes1[j]]
            0 <= j < log1.len() ==> c.chosen((base + 1 + j) as u64, logbytes1[j])
                && spec_decode_entry(logbytes1[j]) == Some(log1[j]),
        forall|j: int|
            #![trigger logbytes2[j]]
            0 <= j < log2.len() ==> c.chosen((base + 1 + j) as u64, logbytes2[j])
                && spec_decode_entry(logbytes2[j]) == Some(log2[j]),
    ensures
        log1 == log2,
        forall|m: Map<Seq<u8>, Seq<u8>>| #[trigger]
            apply_log_user(m, log1) == apply_log_user(m, log2),
{
    assert forall|j: int| 0 <= j < log1.len() implies log1[j] == log2[j] by {
        let b1 = logbytes1[j];
        let b2 = logbytes2[j];
        lemma_chosen_unique(c, (base + 1 + j) as u64, b1, b2);
    }
    assert(log1 =~= log2);
}

} // verus!
