//! The world model: live entities with their component lists, singleton
//! resources, the type registry, and world-level policy defaults. This is
//! the boundary the host runtime must satisfy: entity identities are plain
//! integers and every stored value is a dynamic value.

use vstd::prelude::*;

use crate::keyed::{
    find, has_key, unique_keys, upsert, find_index, Keyed, lemma_find_at, lemma_find_agree,
    lemma_find_skip_push,
};
use crate::policy::{DespawnMode, MappingMode};
use crate::registry::Registry;
use crate::value::DynamicValue;

verus! {

/// One live entity: its identity and its attached components, unique by
/// type name.
pub struct EntityRecord {
    pub id: u64,
    pub components: Vec<DynamicValue>,
}

impl Keyed for EntityRecord {
    open spec fn key(&self) -> u64 {
        self.id
    }

    fn key_of(&self) -> (k: u64) {
        self.id
    }
}

/// The runtime container of entities, resources and the registry, together
/// with world-level policy defaults.
pub struct World {
    pub entities: Vec<EntityRecord>,
    pub resources: Vec<DynamicValue>,
    pub registry: Registry,
    pub next_id: u64,
    pub default_despawn: Option<DespawnMode>,
    pub default_mapping: Option<MappingMode>,
}

/// An empty record under the given identity.
pub open spec fn is_empty_record(r: EntityRecord, id: u64) -> bool {
    r.id == id && r.components@ =~= Seq::<DynamicValue>::empty()
}

/// A record's components carry distinct type names.
pub open spec fn wf_record(r: EntityRecord) -> bool {
    unique_keys(r.components@)
}

/// Well-formedness: entity identities unique and below the allocator mark,
/// component and resource type names unique, registry names unique.
pub open spec fn wf_world(w: World) -> bool {
    &&& unique_keys(w.entities@)
    &&& forall|i: int|
        0 <= i < w.entities@.len() ==> wf_record(#[trigger] w.entities@[i]) && w.entities@[i].id
            < w.next_id
    &&& unique_keys(w.resources@)
    &&& w.registry.wf()
}

/// Whether an entity with this identity is live.
pub open spec fn alive(w: World, id: u64) -> bool {
    has_key(w.entities@, id)
}

/// The live entity with this identity, if any.
pub open spec fn entity_of(w: World, id: u64) -> Option<EntityRecord> {
    find(w.entities@, id)
}

/// The components of the live entity with this identity, or the empty
/// sequence if it is not live.
pub open spec fn components_of(w: World, id: u64) -> Seq<DynamicValue> {
    match entity_of(w, id) {
        Some(r) => r.components@,
        None => Seq::empty(),
    }
}

/// The resource stored under this type name, if any.
pub open spec fn resource_of(w: World, name: u64) -> Option<DynamicValue> {
    find(w.resources@, name)
}

impl World {
    /// An empty world over a registry.
    pub fn new(registry: Registry) -> (w: Self)
        requires
            registry.wf(),
        ensures
            w.entities@ =~= Seq::<EntityRecord>::empty(),
            w.resources@ =~= Seq::<DynamicValue>::empty(),
            w.registry == registry,
            w.next_id == 0,
            w.default_despawn is None,
            w.default_mapping is None,
            wf_world(w),
    {
        World {
            entities: Vec::new(),
            resources: Vec::new(),
            registry,
            next_id: 0,
            default_despawn: None,
            default_mapping: None,
        }
    }

    /// Whether an entity with this identity is live.
    pub fn is_alive(&self, id: u64) -> (r: bool)
        ensures
            r == alive(*self, id),
    {
        match find_index(&self.entities, id) {
            Some(_) => true,
            None => false,
        }
    }

    /// The identities of every live entity, in world order.
    pub fn entity_ids(&self) -> (r: Vec<u64>)
        ensures
            r@.len() == self.entities@.len(),
            forall|i: int| 0 <= i < r@.len() ==> r@[i] == self.entities@[i].id,
    {
        let mut out: Vec<u64> = Vec::new();
        let mut i: usize = 0;
        while i < self.entities.len()
            invariant
                i <= self.entities@.len(),
                out@.len() == i,
                forall|j: int| 0 <= j < i ==> out@[j] == self.entities@[j].id,
            decreases self.entities@.len() - i,
        {
            out.push(self.entities[i].id);
            i = i + 1;
        }
        out
    }

    /// Create a fresh, empty entity and return its identity.
    pub fn spawn_empty(&mut self) -> (id: u64)
        requires
            wf_world(*old(self)),
            old(self).next_id < u64::MAX,
        ensures
            id == old(self).next_id,
            !alive(*old(self), id),
            final(self).entities@.len() == old(self).entities@.len() + 1,
            final(self).entities@.drop_last() == old(self).entities@,
            is_empty_record(final(self).entities@.last(), id),
            final(self).next_id == old(self).next_id + 1,
            final(self).resources@ == old(self).resources@,
            final(self).registry == old(self).registry,
            final(self).default_despawn == old(self).default_despawn,
            final(self).default_mapping == old(self).default_mapping,
            wf_world(*final(self)),
            alive(*final(self), id),
            entity_of(*final(self), id) == Some(final(self).entities@.last()),
            forall|k: u64| k != id ==> entity_of(*final(self), k) == entity_of(*old(self), k),
            forall|k: u64| #[trigger] alive(*final(self), k) <==> alive(*old(self), k) || k == id,
    {
        let id = self.next_id;
        proof {
            if has_key(self.entities@, id) {
                let i = choose|i: int|
                    0 <= i < self.entities@.len() && self.entities@[i].key() == id;
                assert(self.entities@[i].id < self.next_id);
            }
        }
        let rec = EntityRecord { id, components: Vec::new() };
        proof {
            crate::keyed::lemma_find_at(self.entities@.push(rec), id, self.entities@.len() as int);
            assert forall|k: u64| k != id implies find(self.entities@.push(rec), k) == find(
                self.entities@,
                k,
            ) by {
                crate::keyed::lemma_find_skip_push(self.entities@, rec, k);
            }
        }
        self.entities.push(rec);
        proof {
            assert forall|k: u64| #[trigger] alive(*self, k) <==> (has_key(
                self.entities@.drop_last(),
                k,
            ) || k == id) by {
                if has_key(self.entities@, k) {
                    let j = choose|j: int|
                        0 <= j < self.entities@.len() && self.entities@[j].key() == k;
                    if j < self.entities@.len() - 1 {
                        assert(self.entities@.drop_last()[j].key() == k);
                    }
                }
                if has_key(self.entities@.drop_last(), k) {
                    let j = choose|j: int|
                        0 <= j < self.entities@.drop_last().len()
                            && self.entities@.drop_last()[j].key() == k;
                    assert(self.entities@[j].key() == k);
                }
                if k == id {
                    assert(self.entities@[self.entities@.len() - 1].key() == k);
                }
            }
            assert(self.entities@.drop_last() =~= old(self).entities@);
        }
        self.next_id = self.next_id + 1;
        id
    }

    /// The resource stored under this type name, if any.
    pub fn get_resource(&self, name: u64) -> (r: Option<&DynamicValue>)
        ensures
            match r {
                Some(v) => resource_of(*self, name) == Some(*v),
                None => resource_of(*self, name) is None,
            },
    {
        match find_index(&self.resources, name) {
            Some(i) => Some(&self.resources[i]),
            None => None,
        }
    }

    /// Insert or overwrite the resource stored under the value's type name.
    pub fn insert_resource(&mut self, v: DynamicValue)
        requires
            wf_world(*old(self)),
        ensures
            wf_world(*final(self)),
            resource_of(*final(self), v.name) == Some(v),
            forall|n: u64| n != v.name ==> resource_of(*final(self), n) == resource_of(
                *old(self),
                n,
            ),
            final(self).entities@ == old(self).entities@,
            final(self).registry == old(self).registry,
            final(self).next_id == old(self).next_id,
            final(self).default_despawn == old(self).default_despawn,
            final(self).default_mapping == old(self).default_mapping,
            !has_key(old(self).resources@, v.name) ==> final(self).resources@
                == old(self).resources@.push(v),
    {
        upsert(&mut self.resources, v);
    }

    /// The index of the live entity with this identity, creating a fresh
    /// empty record under that identity if none is live.
    pub fn get_or_create(&mut self, id: u64) -> (i: usize)
        requires
            wf_world(*old(self)),
            id < u64::MAX,
        ensures
            wf_world(*final(self)),
            i < final(self).entities@.len(),
            final(self).entities@[i as int].id == id,
            forall|j: int| 0 <= j < i ==> final(self).entities@[j].id != id,
            alive(*old(self), id) ==> final(self).entities@ == old(self).entities@
                && final(self).next_id == old(self).next_id,
            !alive(*old(self), id) ==> final(self).entities@.len() == old(self).entities@.len()
                + 1 && final(self).entities@.drop_last() == old(self).entities@
                && is_empty_record(final(self).entities@.last(), id)
                && final(self).next_id == (if id + 1 > old(self).next_id {
                (id + 1) as int
            } else {
                old(self).next_id as int
            }),
            final(self).resources@ == old(self).resources@,
            final(self).registry == old(self).registry,
            final(self).default_despawn == old(self).default_despawn,
            final(self).default_mapping == old(self).default_mapping,
            alive(*final(self), id),
            forall|k: u64| k != id ==> entity_of(*final(self), k) == entity_of(*old(self), k),
            entity_of(*final(self), id) == Some(final(self).entities@[i as int]),
            forall|k: u64| #[trigger] alive(*final(self), k) <==> alive(*old(self), k) || k == id,
    {
        match find_index(&self.entities, id) {
            Some(i) => {
                proof {
                    crate::keyed::lemma_find_at(self.entities@, id, i as int);
                }
                i
            },
            None => {
                let rec = EntityRecord { id, components: Vec::new() };
                proof {
                    crate::keyed::lemma_find_at(
                        self.entities@.push(rec),
                        id,
                        self.entities@.len() as int,
                    );
                    assert forall|k: u64| k != id implies find(self.entities@.push(rec), k) == find(
                        self.entities@,
                        k,
                    ) by {
                        crate::keyed::lemma_find_skip_push(self.entities@, rec, k);
                    }
                }
                self.entities.push(rec);
                proof {
                    assert forall|k: u64| #[trigger] alive(*self, k) <==> (has_key(
                        self.entities@.drop_last(),
                        k,
                    ) || k == id) by {
                        if has_key(self.entities@, k) {
                            let j = choose|j: int|
                                0 <= j < self.entities@.len() && self.entities@[j].key() == k;
                            if j < self.entities@.len() - 1 {
                                assert(self.entities@.drop_last()[j].key() == k);
                            }
                        }
                        if has_key(self.entities@.drop_last(), k) {
                            let j = choose|j: int|
                                0 <= j < self.entities@.drop_last().len()
                                    && self.entities@.drop_last()[j].key() == k;
                            assert(self.entities@[j].key() == k);
                        }
                        if k == id {
                            assert(self.entities@[self.entities@.len() - 1].key() == k);
                        }
                    }
                    assert(self.entities@.drop_last() =~= old(self).entities@);
                }
                if id >= self.next_id {
                    self.next_id = id + 1;
                }
                self.entities.len() - 1
            },
        }
    }

    /// Apply a component onto the target entity as a structural merge:
    /// replace the component stored under the value's type name, or attach
    /// it fresh. A target that is not live is created under that identity.
    pub fn merge_component(&mut self, id: u64, c: DynamicValue)
        requires
            wf_world(*old(self)),
            id < u64::MAX,
        ensures
            wf_world(*final(self)),
            forall|k: u64| alive(*final(self), k) <==> alive(*old(self), k) || k == id,
            forall|k: u64| k != id ==> entity_of(*final(self), k) == entity_of(*old(self), k),
            match entity_of(*final(self), id) {
                Some(rec) => {
                    &&& rec.id == id
                    &&& find(rec.components@, c.name) == Some(c)
                    &&& forall|n: u64|
                        n != c.name ==> find(rec.components@, n) == find(
                            components_of(*old(self), id),
                            n,
                        )
                    &&& (!has_key(components_of(*old(self), id), c.name) ==> rec.components@
                        == components_of(*old(self), id).push(c))
                },
                None => false,
            },
            final(self).resources@ == old(self).resources@,
            final(self).registry == old(self).registry,
            final(self).default_despawn == old(self).default_despawn,
            final(self).default_mapping == old(self).default_mapping,
            alive(*old(self), id) ==> final(self).next_id == old(self).next_id,
            final(self).next_id >= old(self).next_id,
            alive(*old(self), id) ==> final(self).entities@.len() == old(self).entities@.len(),
    {
        let i = self.get_or_create(id);
        let ghost mid = *self;
        let mut rec = self.entities.remove(i);
        upsert(&mut rec.components, c);
        proof {
            if !alive(mid, id) {
                assert(components_of(mid, id) =~= Seq::<DynamicValue>::empty());
            }
            assert(entity_of(mid, id) == Some(mid.entities@[i as int]));
            assert(components_of(mid, id) == mid.entities@[i as int].components@);
            if alive(*old(self), id) {
                assert(components_of(*old(self), id) == components_of(mid, id));
            } else {
                crate::keyed::lemma_find_some(old(self).entities@, id);
                assert(entity_of(*old(self), id) is None);
                assert(components_of(mid, id) =~= components_of(*old(self), id));
            }
        }
        let ghost rec_g = rec;
        self.entities.insert(i, rec);
        proof {
            assert(rec_g.id == id);
            assert(self.entities@ =~= mid.entities@.update(i as int, rec_g));
            assert(self.entities@[i as int] == rec_g);
            lemma_find_at(self.entities@, id, i as int);
            assert forall|k: u64| k != id implies find(self.entities@, k) == find(
                mid.entities@,
                k,
            ) by {
                lemma_find_agree(self.entities@, mid.entities@, k);
            }
            assert forall|k: u64| true implies (alive(*self, k) <==> alive(mid, k)) by {
                if has_key(self.entities@, k) {
                    let j = choose|j: int|
                        0 <= j < self.entities@.len() && self.entities@[j].key() == k;
                    if j != i {
                        assert(mid.entities@[j].key() == k);
                    }
                }
                if has_key(mid.entities@, k) {
                    let j = choose|j: int|
                        0 <= j < mid.entities@.len() && mid.entities@[j].key() == k;
                    if j != i {
                        assert(self.entities@[j].key() == k);
                    }
                }
            }
            assert forall|k: u64| true implies (alive(mid, k) <==> alive(*old(self), k) || k
                == id) by {
                if alive(*old(self), k) {
                    let j = choose|j: int|
                        0 <= j < old(self).entities@.len() && old(self).entities@[j].key() == k;
                    assert(mid.entities@[j].key() == k);
                }
                if has_key(mid.entities@, k) && k != id {
                    let j = choose|j: int|
                        0 <= j < mid.entities@.len() && mid.entities@[j].key() == k;
                    if j < old(self).entities@.len() {
                        assert(old(self).entities@[j].key() == k);
                    } else {
                        assert(mid.entities@[j].key() == id);
                    }
                }
            }
            assert forall|k: u64| true implies (alive(*self, k) <==> alive(*old(self), k) || k
                == id) by {
                assert(alive(*self, k) <==> alive(mid, k));
                assert(alive(mid, k) <==> alive(*old(self), k) || k == id);
            }
        }
    }
}

} // verus!
