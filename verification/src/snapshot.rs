//! The immutable snapshot data model: extracted resources and per-entity
//! component lists, detached from the world they were read from.

use vstd::prelude::*;

use crate::entity_map::{em_lookup, em_pass, EntityMap};
use crate::keyed::{unique_keys, Keyed};
use crate::value::{dvs_eq, CloneReflect, DynamicValue};

verus! {

/// One captured entity: its original identity and its extracted components,
/// unique by type name.
pub struct SaveableEntity {
    pub entity: u64,
    pub components: Vec<DynamicValue>,
}

impl Keyed for SaveableEntity {
    open spec fn key(&self) -> u64 {
        self.entity
    }

    fn key_of(&self) -> (k: u64) {
        self.entity
    }
}

impl SaveableEntity {
    /// The identity this entity resolves to through the caller map, if an
    /// entry exists.
    pub fn map(&self, m: &EntityMap) -> (r: Option<u64>)
        ensures
            r == em_lookup(m.pairs@, self.entity),
    {
        m.get(self.entity)
    }

    /// The identity this entity resolves to through the caller map, with a
    /// missing entry passing the original identity through unchanged.
    pub fn try_map(&self, m: &EntityMap) -> (r: u64)
        ensures
            r == em_pass(m.pairs@, self.entity),
    {
        m.get_or_self(self.entity)
    }

    /// Whether the captured record holds no components.
    pub fn is_empty(&self) -> (r: bool)
        ensures
            r == (self.components@.len() == 0),
    {
        self.components.len() == 0
    }
}

impl CloneReflect for SaveableEntity {
    open spec fn same_content(&self, other: &Self) -> bool {
        self.entity == other.entity && dvs_eq(self.components@, other.components@)
    }

    fn clone_value(&self) -> (r: Self) {
        SaveableEntity { entity: self.entity, components: self.components.clone_value() }
    }
}

/// An immutable, detached capture of selected resources and entities.
/// Resources are unique by type name, entities by original identity.
pub struct RawSnapshot {
    pub resources: Vec<DynamicValue>,
    pub entities: Vec<SaveableEntity>,
}

/// Snapshot invariant: resource names unique, entity identities unique, and
/// each entity's component names unique.
pub open spec fn wf_snapshot(s: RawSnapshot) -> bool {
    &&& unique_keys(s.resources@)
    &&& unique_keys(s.entities@)
    &&& forall|i: int|
        0 <= i < s.entities@.len() ==> unique_keys(#[trigger] s.entities@[i].components@)
}

impl RawSnapshot {
    /// An empty snapshot.
    pub fn default() -> (r: Self)
        ensures
            r.resources@ =~= Seq::<DynamicValue>::empty(),
            r.entities@ =~= Seq::<SaveableEntity>::empty(),
            wf_snapshot(r),
    {
        RawSnapshot { resources: Vec::default(), entities: Vec::default() }
    }
}

impl CloneReflect for RawSnapshot {
    open spec fn same_content(&self, other: &Self) -> bool {
        &&& dvs_eq(self.resources@, other.resources@)
        &&& self.entities@.len() == other.entities@.len()
        &&& forall|i: int|
            0 <= i < self.entities@.len() ==> (#[trigger] self.entities@[i]).same_content(
                &other.entities@[i],
            )
    }

    fn clone_value(&self) -> (r: Self) {
        let resources = self.resources.clone_value();
        let mut entities: Vec<SaveableEntity> = Vec::new();
        let mut i: usize = 0;
        while i < self.entities.len()
            invariant
                i <= self.entities@.len(),
                entities@.len() == i,
                forall|j: int| 0 <= j < i ==> (#[trigger] entities@[j]).same_content(
                    &self.entities@[j],
                ),
            decreases self.entities@.len() - i,
        {
            entities.push(self.entities[i].clone_value());
            i = i + 1;
        }
        RawSnapshot { resources, entities }
    }
}

} // verus!
