//! Despawn and mapping policies for applying a snapshot.

use vstd::prelude::*;

use crate::keyed::{has_key, Keyed};
use crate::value::DynamicValue;

verus! {

/// A live-entity filter: an entity matches when it carries a component of
/// every listed type name.
pub struct EntityFilter {
    pub required: Vec<u64>,
}

/// Whether a component list satisfies the filter.
pub open spec fn filter_matches(f: EntityFilter, comps: Seq<DynamicValue>) -> bool {
    forall|i: int| 0 <= i < f.required@.len() ==> has_key(comps, f.required@[i])
}

impl EntityFilter {
    /// Whether a component list satisfies the filter.
    pub fn matches(&self, comps: &Vec<DynamicValue>) -> (r: bool)
        ensures
            r == filter_matches(*self, comps@),
    {
        let mut i: usize = 0;
        while i < self.required.len()
            invariant
                i <= self.required@.len(),
                forall|j: int| 0 <= j < i ==> has_key(comps@, self.required@[j]),
            decreases self.required@.len() - i,
        {
            match crate::keyed::find_index(comps, self.required[i]) {
                Some(_) => {},
                None => {
                    return false;
                },
            }
            i = i + 1;
        }
        true
    }

    /// Duplicate the filter.
    pub fn duplicate(&self) -> (r: Self)
        ensures
            r.required@ == self.required@,
    {
        let mut required: Vec<u64> = Vec::new();
        let mut i: usize = 0;
        while i < self.required.len()
            invariant
                i <= self.required@.len(),
                required@ == self.required@.take(i as int),
            decreases self.required@.len() - i,
        {
            required.push(self.required[i]);
            i = i + 1;
        }
        proof {
            assert(required@ =~= self.required@);
        }
        EntityFilter { required }
    }
}

/// Which live entities are removed before a snapshot is applied.
pub enum DespawnMode {
    /// Remove nothing (the no-op default).
    Keep,
    /// Remove every live entity.
    All,
    /// Remove every live entity matching the filter.
    AllWith(EntityFilter),
    /// Remove live entities whose identity, passed through the caller map
    /// (unmapped identities pass through unchanged), is absent from the
    /// snapshot's original identities.
    Missing,
    /// `Missing`, restricted to entities matching the filter.
    MissingWith(EntityFilter),
    /// Remove live entities absent from the set of identities that snapshot
    /// entities successfully resolve to through the caller map; a snapshot
    /// entity without a map entry does not count toward validity.
    Unmapped,
    /// `Unmapped`, restricted to entities matching the filter.
    UnmappedWith(EntityFilter),
}

/// Deep equality of despawn modes.
pub open spec fn dm_eq(a: DespawnMode, b: DespawnMode) -> bool {
    match (a, b) {
        (DespawnMode::Keep, DespawnMode::Keep) => true,
        (DespawnMode::All, DespawnMode::All) => true,
        (DespawnMode::AllWith(x), DespawnMode::AllWith(y)) => x.required@ == y.required@,
        (DespawnMode::Missing, DespawnMode::Missing) => true,
        (DespawnMode::MissingWith(x), DespawnMode::MissingWith(y)) => x.required@ == y.required@,
        (DespawnMode::Unmapped, DespawnMode::Unmapped) => true,
        (DespawnMode::UnmappedWith(x), DespawnMode::UnmappedWith(y)) => x.required@ == y.required@,
        _ => false,
    }
}

impl DespawnMode {
    /// Duplicate the mode.
    pub fn duplicate(&self) -> (r: Self)
        ensures
            dm_eq(r, *self),
    {
        match self {
            DespawnMode::Keep => DespawnMode::Keep,
            DespawnMode::All => DespawnMode::All,
            DespawnMode::AllWith(f) => DespawnMode::AllWith(f.duplicate()),
            DespawnMode::Missing => DespawnMode::Missing,
            DespawnMode::MissingWith(f) => DespawnMode::MissingWith(f.duplicate()),
            DespawnMode::Unmapped => DespawnMode::Unmapped,
            DespawnMode::UnmappedWith(f) => DespawnMode::UnmappedWith(f.duplicate()),
        }
    }
}

/// Whether applying reuses existing live identities or always allocates
/// fresh ones.
#[derive(Clone, Copy, PartialEq, Eq, Structural, Debug)]
pub enum MappingMode {
    /// Prefer the caller map, then the working map, else allocate fresh.
    Simple,
    /// Always allocate a freshly created entity.
    Strict,
}

} // verus!
