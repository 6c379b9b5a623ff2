//! The durable store model.
//!
//! A `Persistor` is a key-to-bytes map with typed helpers around it. It is
//! the in-memory image of one node's durable state; the embedding program
//! writes the dumped entries to disk after an update and rebuilds the store
//! from them on restart. A completed dump/rebuild pair restores the map
//! exactly, which is the library's shape of crash durability.

use vstd::prelude::*;

verus! {

/// Compares two byte strings.
pub fn bytes_eq(a: &[u8], b: &[u8]) -> (r: bool)
    ensures
        r <==> a@ == b@,
{
    if a.len() != b.len() {
        return false;
    }
    let mut i: usize = 0;
    while i < a.len()
        invariant
            i <= a.len(),
            a@.len() == b@.len(),
            forall|j: int| 0 <= j < i ==> a@[j] == b@[j],
        decreases a.len() - i,
    {
        if a[i] != b[i] {
            return false;
        }
        i = i + 1;
    }
    proof {
        assert(a@ =~= b@);
    }
    true
}

/// Copies a byte vector.
pub fn clone_bytes(v: &Vec<u8>) -> (r: Vec<u8>)
    ensures
        r@ == v@,
{
    let mut r: Vec<u8> = Vec::new();
    let mut i: usize = 0;
    while i < v.len()
        invariant
            i <= v.len(),
            r@ == v@.take(i as int),
        decreases v.len() - i,
    {
        r.push(v[i]);
        i = i + 1;
    }
    proof {
        assert(v@.take(v@.len() as int) == v@);
    }
    r
}

/// The map that a sequence of key/value entries describes; a later entry
/// with the same key wins.
pub open spec fn entries_map(s: Seq<(Vec<u8>, Vec<u8>)>) -> Map<Seq<u8>, Seq<u8>>
    decreases s.len(),
{
    if s.len() == 0 {
        Map::empty()
    } else {
        entries_map(s.drop_last()).insert(s.last().0@, s.last().1@)
    }
}

/// No two entries share a key.
pub open spec fn entries_unique(s: Seq<(Vec<u8>, Vec<u8>)>) -> bool {
    forall|i: int, j: int| 0 <= i < j < s.len() ==> s[i].0@ != s[j].0@
}

/// A key is in the map exactly when some entry holds it.
proof fn lemma_entries_map_contains(s: Seq<(Vec<u8>, Vec<u8>)>, k: Seq<u8>)
    ensures
        entries_map(s).contains_key(k) <==> exists|i: int| 0 <= i < s.len() && s[i].0@ == k,
    decreases s.len(),
{
    if s.len() > 0 {
        lemma_entries_map_contains(s.drop_last(), k);
        if s.last().0@ != k && entries_map(s).contains_key(k) {
            let i = choose|i: int| 0 <= i < s.drop_last().len() && s.drop_last()[i].0@ == k;
            assert(s[i].0@ == k);
        }
        if exists|i: int| 0 <= i < s.len() && s[i].0@ == k {
            let i = choose|i: int| 0 <= i < s.len() && s[i].0@ == k;
            if i < s.len() - 1 {
                assert(s.drop_last()[i].0@ == k);
            }
        }
    }
}

/// An entry whose key no later entry repeats gives the map's value at it.
proof fn lemma_entries_map_at(s: Seq<(Vec<u8>, Vec<u8>)>, i: int)
    requires
        0 <= i < s.len(),
        forall|j: int| i < j < s.len() ==> s[j].0@ != s[i].0@,
    ensures
        entries_map(s).contains_key(s[i].0@),
        entries_map(s)[s[i].0@] == s[i].1@,
    decreases s.len(),
{
    if i < s.len() - 1 {
        assert(s.drop_last()[i] == s[i]);
        lemma_entries_map_at(s.drop_last(), i);
    }
}

/// Replacing the entry that holds a key updates the map at that key alone.
proof fn lemma_entries_map_update(s: Seq<(Vec<u8>, Vec<u8>)>, i: int, e: (Vec<u8>, Vec<u8>))
    requires
        0 <= i < s.len(),
        entries_unique(s),
        s[i].0@ == e.0@,
    ensures
        entries_map(s.update(i, e)) == entries_map(s).insert(e.0@, e.1@),
    decreases s.len(),
{
    if i == s.len() - 1 {
        assert(s.update(i, e).drop_last() =~= s.drop_last());
        assert(s.update(i, e).last() == e);
        assert(entries_map(s.update(i, e)) =~= entries_map(s).insert(e.0@, e.1@));
    } else {
        assert(s.update(i, e).drop_last() =~= s.drop_last().update(i, e));
        assert(s.drop_last()[i] == s[i]);
        lemma_entries_map_update(s.drop_last(), i, e);
        assert(s[s.len() - 1].0@ != s[i].0@);
        assert(s.update(i, e).last() == s.last());
        assert(entries_map(s.update(i, e)) =~= entries_map(s).insert(e.0@, e.1@));
    }
}

/// Removing the entry that holds a key removes that key from the map alone.
proof fn lemma_entries_map_remove(s: Seq<(Vec<u8>, Vec<u8>)>, i: int)
    requires
        0 <= i < s.len(),
        entries_unique(s),
        forall|j: int| 0 <= j < s.len() && j != i ==> s[j].0@ != s[i].0@,
    ensures
        entries_map(s.remove(i)) == entries_map(s).remove(s[i].0@),
    decreases s.len(),
{
    if i == s.len() - 1 {
        assert(s.remove(i) =~= s.drop_last());
        lemma_entries_map_contains(s.drop_last(), s[i].0@);
        assert(!entries_map(s.drop_last()).contains_key(s[i].0@));
        assert(entries_map(s.remove(i)) =~= entries_map(s).remove(s[i].0@));
    } else {
        assert(s.remove(i).drop_last() =~= s.drop_last().remove(i));
        assert(s.drop_last()[i] == s[i]);
        lemma_entries_map_remove(s.drop_last(), i);
        assert(s.remove(i).last() == s.last());
        assert(s.last().0@ != s[i].0@);
        assert(entries_map(s.remove(i)) =~= entries_map(s).remove(s[i].0@));
    }
}

/// Two entry lists that agree byte-for-byte describe the same map.
proof fn lemma_entries_map_congruent(s1: Seq<(Vec<u8>, Vec<u8>)>, s2: Seq<(Vec<u8>, Vec<u8>)>)
    requires
        s1.len() == s2.len(),
        forall|j: int| 0 <= j < s1.len() ==> s1[j].0@ == s2[j].0@ && s1[j].1@ == s2[j].1@,
    ensures
        entries_map(s1) == entries_map(s2),
    decreases s1.len(),
{
    if s1.len() > 0 {
        assert(forall|j: int|
            0 <= j < s1.drop_last().len() ==> s1.drop_last()[j].0@ == s2.drop_last()[j].0@
                && s1.drop_last()[j].1@ == s2.drop_last()[j].1@);
        lemma_entries_map_congruent(s1.drop_last(), s2.drop_last());
        assert(entries_map(s1) =~= entries_map(s2));
    }
}

/// Crash-safe key-to-bytes persistence with typed helpers, modelled as a map.
pub struct Persistor {
    entries: Vec<(Vec<u8>, Vec<u8>)>,
}

impl View for Persistor {
    type V = Map<Seq<u8>, Seq<u8>>;

    closed spec fn view(&self) -> Map<Seq<u8>, Seq<u8>> {
        entries_map(self.entries@)
    }
}

impl Persistor {
    /// Whether the store's entry list is well formed (keys unique).
    pub closed spec fn wf(&self) -> bool {
        entries_unique(self.entries@)
    }

    /// Creates an empty store.
    pub fn new() -> (p: Persistor)
        ensures
            p.wf(),
            p@ == Map::<Seq<u8>, Seq<u8>>::empty(),
    {
        Persistor { entries: Vec::new() }
    }

    fn find(&self, key: &[u8]) -> (r: Option<usize>)
        ensures
            match r {
                Some(i) => i < self.entries@.len() && self.entries@[i as int].0@ == key@,
                None => forall|j: int| 0 <= j < self.entries@.len() ==> self.entries@[j].0@ != key@,
            },
    {
        let mut i: usize = 0;
        while i < self.entries.len()
            invariant
                i <= self.entries@.len(),
                forall|j: int| 0 <= j < i ==> self.entries@[j].0@ != key@,
            decreases self.entries@.len() - i,
        {
            if bytes_eq(self.entries[i].0.as_slice(), key) {
                return Some(i);
            }
            i = i + 1;
        }
        None
    }

    /// Looks a key up, returning a copy of the stored value.
    pub fn get(&self, key: &[u8]) -> (r: Option<Vec<u8>>)
        requires
            self.wf(),
        ensures
            match r {
                Some(v) => self@.contains_key(key@) && v@ == self@[key@],
                None => !self@.contains_key(key@),
            },
    {
        proof {
            lemma_entries_map_contains(self.entries@, key@);
        }
        match self.find(key) {
            Some(i) => {
                proof {
                    lemma_entries_map_at(self.entries@, i as int);
                }
                Some(clone_bytes(&self.entries[i].1))
            },
            None => None,
        }
    }

    /// Whether a key is present.
    pub fn contains(&self, key: &[u8]) -> (r: bool)
        requires
            self.wf(),
        ensures
            r <==> self@.contains_key(key@),
    {
        proof {
            lemma_entries_map_contains(self.entries@, key@);
        }
        self.find(key).is_some()
    }

    /// Stores a value under a key, replacing any previous value.
    pub fn set(&mut self, key: Vec<u8>, value: Vec<u8>)
        requires
            old(self).wf(),
        ensures
            final (self).wf(),
            final (self)@ == old(self)@.insert(key@, value@),
    {
        let ghost s0 = self.entries@;
        match self.find(key.as_slice()) {
            Some(i) => {
                proof {
                    lemma_entries_map_update(s0, i as int, (key, value));
                }
                self.entries[i] = (key, value);
                proof {
                    assert(forall|x: int|
                        0 <= x < self.entries@.len() ==> self.entries@[x].0@ == s0[x].0@);
                    assert(entries_unique(self.entries@));
                }
            },
            None => {
                self.entries.push((key, value));
                proof {
                    assert(self.entries@.drop_last() =~= s0);
                    assert(entries_unique(self.entries@));
                }
            },
        }
    }

    /// Deletes a key; absent keys stay absent.
    pub fn delete(&mut self, key: &[u8])
        requires
            old(self).wf(),
        ensures
            final (self).wf(),
            final (self)@ == old(self)@.remove(key@),
    {
        let ghost s0 = self.entries@;
        match self.find(key) {
            Some(i) => {
                proof {
                    lemma_entries_map_remove(s0, i as int);
                }
                self.entries.remove(i);
                proof {
                    assert(entries_unique(self.entries@));
                }
            },
            None => {
                proof {
                    lemma_entries_map_contains(s0, key@);
                    assert(self@ =~= old(self)@.remove(key@));
                }
            },
        }
    }

    /// Copies the store's entries out, for the embedding program to persist.
    pub fn dump(&self) -> (r: Vec<(Vec<u8>, Vec<u8>)>)
        requires
            self.wf(),
        ensures
            entries_map(r@) == self@,
            entries_unique(r@),
    {
        let mut r: Vec<(Vec<u8>, Vec<u8>)> = Vec::new();
        let mut i: usize = 0;
        while i < self.entries.len()
            invariant
                i <= self.entries@.len(),
                r@.len() == i,
                forall|j: int| 0 <= j < i ==> r@[j].0@ == self.entries@[j].0@ && r@[j].1@ == self.entries@[j].1@,
            decreases self.entries@.len() - i,
        {
            let k = clone_bytes(&self.entries[i].0);
            let v = clone_bytes(&self.entries[i].1);
            r.push((k, v));
            i = i + 1;
        }
        proof {
            lemma_entries_map_congruent(r@, self.entries@);
        }
        r
    }

    /// Rebuilds a store from dumped entries; a later entry with the same key
    /// wins, as `entries_map` says.
    pub fn from_entries(entries: &Vec<(Vec<u8>, Vec<u8>)>) -> (p: Persistor)
        ensures
            p.wf(),
            p@ == entries_map(entries@),
    {
        let mut p = Persistor::new();
        let mut i: usize = 0;
        while i < entries.len()
            invariant
                i <= entries@.len(),
                p.wf(),
                p@ == entries_map(entries@.take(i as int)),
            decreases entries@.len() - i,
        {
            let k = clone_bytes(&entries[i].0);
            let v = clone_bytes(&entries[i].1);
            p.set(k, v);
            i = i + 1;
            proof {
                assert(entries@.take(i as int).drop_last() =~= entries@.take(i - 1));
            }
        }
        proof {
            assert(entries@.take(entries@.len() as int) == entries@);
        }
        p
    }
}

} // verus!
