//! The caller-supplied and internally built correspondence from snapshot-time
//! entity identities to live identities.

use vstd::prelude::*;

use crate::keyed::{find, has_key, unique_keys, upsert, find_index, Keyed};

verus! {

impl Keyed for (u64, u64) {
    open spec fn key(&self) -> u64 {
        self.0
    }

    fn key_of(&self) -> (k: u64) {
        self.0
    }
}

/// A partial mapping from original entity identity to live identity.
pub struct EntityMap {
    pub pairs: Vec<(u64, u64)>,
}

/// The identity the map assigns to `k`, if any.
pub open spec fn em_lookup(m: Seq<(u64, u64)>, k: u64) -> Option<u64> {
    match find(m, k) {
        Some(p) => Some(p.1),
        None => None,
    }
}

/// The identity assigned to `k`, with unmapped identities passing through
/// unchanged.
pub open spec fn em_pass(m: Seq<(u64, u64)>, k: u64) -> u64 {
    match em_lookup(m, k) {
        Some(v) => v,
        None => k,
    }
}

impl EntityMap {
    /// Entries have distinct original identities.
    pub open spec fn wf(&self) -> bool {
        unique_keys(self.pairs@)
    }

    pub fn new() -> (r: Self)
        ensures
            r.pairs@ =~= Seq::<(u64, u64)>::empty(),
            r.wf(),
    {
        EntityMap { pairs: Vec::new() }
    }

    /// The mapped identity for `k`, if an entry exists.
    pub fn get(&self, k: u64) -> (r: Option<u64>)
        ensures
            r == em_lookup(self.pairs@, k),
    {
        match find_index(&self.pairs, k) {
            Some(i) => Some(self.pairs[i].1),
            None => None,
        }
    }

    /// The mapped identity for `k`, with unmapped identities passing through.
    pub fn get_or_self(&self, k: u64) -> (r: u64)
        ensures
            r == em_pass(self.pairs@, k),
    {
        match self.get(k) {
            Some(v) => v,
            None => k,
        }
    }

    /// Whether an entry for `k` exists.
    pub fn contains(&self, k: u64) -> (r: bool)
        ensures
            r == (em_lookup(self.pairs@, k) is Some),
    {
        match find_index(&self.pairs, k) {
            Some(_) => true,
            None => false,
        }
    }

    /// Add or replace the entry for `k`.
    pub fn insert(&mut self, k: u64, v: u64)
        ensures
            em_lookup(final(self).pairs@, k) == Some(v),
            forall|k2: u64| k2 != k ==> em_lookup(final(self).pairs@, k2) == em_lookup(
                old(self).pairs@,
                k2,
            ),
            old(self).wf() ==> final(self).wf(),
            !has_key(old(self).pairs@, k) ==> final(self).pairs@ == old(self).pairs@.push((k, v)),
    {
        upsert(&mut self.pairs, (k, v));
    }

    /// Duplicate the map.
    pub fn duplicate(&self) -> (r: Self)
        ensures
            r.pairs@ == self.pairs@,
    {
        let mut pairs: Vec<(u64, u64)> = Vec::new();
        let mut i: usize = 0;
        while i < self.pairs.len()
            invariant
                i <= self.pairs@.len(),
                pairs@ == self.pairs@.take(i as int),
            decreases self.pairs@.len() - i,
        {
            pairs.push(self.pairs[i]);
            i = i + 1;
        }
        proof {
            assert(pairs@ =~= self.pairs@);
        }
        EntityMap { pairs }
    }
}

} // verus!
