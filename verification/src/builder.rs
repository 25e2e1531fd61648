//! The snapshot extraction builder: walks a world (or an explicit entity
//! subset) and accumulates detached records, filterable by type.
//!
//! Extraction never fails: entities that are not live and types that are
//! not registered, not saveable, or rejected by the filter are silently
//! skipped.

use vstd::prelude::*;

use crate::keyed::{
    find, has_key, unique_keys, upsert, find_index, Keyed, lemma_filter_take_step,
    lemma_filter_unique, lemma_find_some,
};
use crate::registry::{filter_accepts, is_saveable, reg_lookup, Registry, TypeFilter};
use crate::snapshot::{wf_snapshot, RawSnapshot, SaveableEntity};
use crate::value::{dv_eq, dvs_eq, CloneReflect, DynamicValue};
use crate::world::{alive, components_of, entity_of, resource_of, wf_world, EntityRecord, World};

verus! {

/// Whether a type name is extractable as a component: saveable, accepted by
/// the filter, and registered with the component capability.
pub open spec fn extractable_component(reg: Registry, f: TypeFilter, name: u64) -> bool {
    &&& is_saveable(reg, name)
    &&& filter_accepts(f, name)
    &&& match reg_lookup(reg, name) {
        Some(t) => t.component_cap,
        None => false,
    }
}

/// Whether a type name is extractable as a resource: saveable, accepted by
/// the filter, and registered with the resource capability.
pub open spec fn extractable_resource(reg: Registry, f: TypeFilter, name: u64) -> bool {
    &&& is_saveable(reg, name)
    &&& filter_accepts(f, name)
    &&& match reg_lookup(reg, name) {
        Some(t) => t.resource_cap,
        None => false,
    }
}

/// The extractable components of a component list, in list order.
pub open spec fn extracted_components(reg: Registry, f: TypeFilter, comps: Seq<DynamicValue>) -> Seq<
    DynamicValue,
> {
    comps.filter(|c: DynamicValue| extractable_component(reg, f, c.name))
}

/// What extraction accumulates for one live entity: the identity and a
/// detached copy of its extractable components.
pub open spec fn extracted_record_ok(w: World, f: TypeFilter, id: u64, r: EntityRecord) -> bool {
    r.id == id && dvs_eq(r.components@, extracted_components(w.registry, f, components_of(w, id)))
}

/// Whether the buffer holds, under the given identity, exactly the record
/// extraction produces for that live entity.
pub open spec fn found_extracted(es: Seq<EntityRecord>, w: World, f: TypeFilter, k: u64) -> bool {
    match find(es, k) {
        Some(rec) => extracted_record_ok(w, f, k, rec),
        None => false,
    }
}

/// Accumulation buffers are keyed and each record's components are unique
/// by type name.
pub open spec fn wf_builder(b: Builder) -> bool {
    &&& unique_keys(b.entities@)
    &&& unique_keys(b.resources@)
    &&& forall|i: int| 0 <= i < b.entities@.len() ==> unique_keys(#[trigger] b.entities@[i].components@)
}

/// The snapshot extraction builder: a type filter plus accumulation buffers
/// for entity records and resources.
pub struct Builder {
    pub filter: TypeFilter,
    pub entities: Vec<EntityRecord>,
    pub resources: Vec<DynamicValue>,
}

impl Builder {
    /// A fresh builder accepting every type.
    pub fn new() -> (r: Self)
        ensures
            r.filter is All,
            r.entities@ =~= Seq::<EntityRecord>::empty(),
            r.resources@ =~= Seq::<DynamicValue>::empty(),
            wf_builder(r),
    {
        Builder { filter: TypeFilter::All, entities: Vec::new(), resources: Vec::new() }
    }

    /// Replace the type filter.
    pub fn filter(self, f: TypeFilter) -> (r: Self)
        ensures
            r.filter == f,
            r.entities@ == self.entities@,
            r.resources@ == self.resources@,
    {
        Builder { filter: f, entities: self.entities, resources: self.resources }
    }

    /// Extract the given entities: for each live entity in the list, record
    /// a detached copy of its extractable components, replacing any prior
    /// record under the same identity. Entities that are not live are
    /// skipped; a live entity with no extractable components still yields
    /// an empty record.
    #[verifier::loop_isolation(false)]
    pub fn extract_entities(self, w: &World, ids: &Vec<u64>) -> (r: Self)
        requires
            wf_world(*w),
            wf_builder(self),
        ensures
            wf_builder(r),
            r.filter == self.filter,
            r.resources@ == self.resources@,
            forall|k: u64|
                ids@.contains(k) && alive(*w, k) ==> #[trigger] found_extracted(
                    r.entities@,
                    *w,
                    self.filter,
                    k,
                ),
            forall|k: u64|
                !(ids@.contains(k) && alive(*w, k)) ==> (#[trigger] find(r.entities@, k)) == find(
                    self.entities@,
                    k,
                ),
    {
        let mut b = self;
        let mut i: usize = 0;
        while i < ids.len()
            invariant
                i <= ids@.len(),
                wf_world(*w),
                wf_builder(b),
                b.filter == self.filter,
                b.resources@ == self.resources@,
                forall|k: u64|
                    ids@.take(i as int).contains(k) && alive(*w, k) ==> #[trigger] found_extracted(
                        b.entities@,
                        *w,
                        self.filter,
                        k,
                    ),
                forall|k: u64|
                    !(ids@.take(i as int).contains(k) && alive(*w, k)) ==> (#[trigger] find(
                        b.entities@,
                        k,
                    )) == find(self.entities@, k),
            decreases ids@.len() - i,
        {
            let id = ids[i];
            let ghost prev = b.entities@;
            match find_index(&w.entities, id) {
                Some(wi) => {
                    let rec = extract_components(w, &b.filter, wi);
                    proof {
                        crate::keyed::lemma_find_at(w.entities@, id, wi as int);
                        assert(w.entities@[wi as int].key() == id);
                        assert(alive(*w, id));
                        assert(rec.key() == id);
                    }
                    upsert(&mut b.entities, rec);
                    proof {
                        assert(find(b.entities@, id) == Some(rec));
                        assert(extracted_record_ok(*w, self.filter, id, rec));
                        assert(found_extracted(b.entities@, *w, self.filter, id));
                    }
                },
                None => {
                    proof {
                        lemma_find_some(w.entities@, id);
                    }
                },
            }
            proof {
                assert(ids@.take(i + 1).drop_last() =~= ids@.take(i as int));
                assert(ids@.take(i + 1).last() == ids@[i as int]);
                assert(ids@.take(i + 1)[i as int] == id);
                assert(ids@.take(i + 1).contains(id));
                assert forall|k: u64| ids@.take(i + 1).contains(k) implies ids@.take(
                    i as int,
                ).contains(k) || k == id by {
                    let j = choose|j: int| 0 <= j < i + 1 && #[trigger] ids@.take(i + 1)[j] == k;
                    if j < i {
                        assert(ids@.take(i as int)[j] == k);
                    }
                }
                assert forall|k: u64| ids@.take(i as int).contains(k) implies ids@.take(
                    i + 1,
                ).contains(k) by {
                    let j = choose|j: int| 0 <= j < i && #[trigger] ids@.take(i as int)[j] == k;
                    assert(ids@.take(i + 1)[j] == k);
                }
                assert forall|k: u64|
                    !(ids@.take(i + 1).contains(k) && alive(*w, k)) implies (#[trigger] find(
                        b.entities@,
                        k,
                    )) == find(self.entities@, k) by {
                    assert(!(ids@.take(i as int).contains(k) && alive(*w, k)));
                    assert(find(prev, k) == find(self.entities@, k));
                    if k != id {
                        assert(find(b.entities@, k) == find(prev, k));
                    } else {
                        assert(!alive(*w, id));
                        assert(find(b.entities@, k) == find(prev, k));
                    }
                }
                assert forall|k: u64|
                    ids@.take(i + 1).contains(k) && alive(*w, k) implies #[trigger] found_extracted(
                        b.entities@,
                        *w,
                        self.filter,
                        k,
                    ) by {
                    if k != id {
                        assert(ids@.take(i as int).contains(k));
                        assert(found_extracted(prev, *w, self.filter, k));
                        assert(find(b.entities@, k) == find(prev, k));
                    }
                }
            }
            i = i + 1;
        }
        proof {
            assert(ids@.take(ids@.len() as int) =~= ids@);
        }
        b
    }

    /// Extract every entity currently live in the world.
    pub fn extract_all_entities(self, w: &World) -> (r: Self)
        requires
            wf_world(*w),
            wf_builder(self),
        ensures
            wf_builder(r),
            r.filter == self.filter,
            r.resources@ == self.resources@,
            forall|k: u64|
                alive(*w, k) ==> #[trigger] found_extracted(r.entities@, *w, self.filter, k),
            forall|k: u64|
                !alive(*w, k) ==> (#[trigger] find(r.entities@, k)) == find(self.entities@, k),
    {
        let ids = w.entity_ids();
        proof {
            assert forall|k: u64| alive(*w, k) implies ids@.contains(k) by {
                let i = choose|i: int| 0 <= i < w.entities@.len() && w.entities@[i].key() == k;
                assert(ids@[i] == k);
            }
            assert forall|k: u64| ids@.contains(k) implies alive(*w, k) by {
                let i = choose|i: int| 0 <= i < ids@.len() && ids@[i] == k;
                assert(w.entities@[i].key() == k);
            }
        }
        self.extract_entities(w, &ids)
    }

    /// Extract the resources whose type names stand in the given list,
    /// combined with the builder's own filter.
    pub fn extract_resources(self, w: &World, names: &Vec<u64>) -> (r: Self)
        requires
            wf_world(*w),
            wf_builder(self),
        ensures
            wf_builder(r),
            r.filter == self.filter,
            r.entities@ == self.entities@,
            forall|n: u64|
                names@.contains(n) && extractable_resource(w.registry, self.filter, n)
                    && resource_of(*w, n) is Some ==> match (
                    find(r.resources@, n),
                    resource_of(*w, n),
                ) {
                    (Some(v), Some(src)) => dv_eq(v, src),
                    _ => false,
                },
            forall|n: u64|
                !(names@.contains(n) && extractable_resource(w.registry, self.filter, n)
                    && resource_of(*w, n) is Some) ==> find(r.resources@, n) == find(
                    self.resources@,
                    n,
                ),
    {
        extract_resources_where(self, w, Some(names))
    }

    /// Extract every saveable-registered resource that passes the filter
    /// and is present in the world, keyed by type name.
    pub fn extract_all_resources(self, w: &World) -> (r: Self)
        requires
            wf_world(*w),
            wf_builder(self),
        ensures
            wf_builder(r),
            r.filter == self.filter,
            r.entities@ == self.entities@,
            forall|n: u64|
                extractable_resource(w.registry, self.filter, n) && resource_of(*w, n)
                    is Some ==> match (find(r.resources@, n), resource_of(*w, n)) {
                    (Some(v), Some(src)) => dv_eq(v, src),
                    _ => false,
                },
            forall|n: u64|
                !(extractable_resource(w.registry, self.filter, n) && resource_of(*w, n) is Some)
                    ==> find(r.resources@, n) == find(self.resources@, n),
    {
        extract_resources_where(self, w, None)
    }

    /// Discard the accumulated entity records.
    pub fn clear_entities(self) -> (r: Self)
        ensures
            r.entities@ =~= Seq::<EntityRecord>::empty(),
            r.resources@ == self.resources@,
            r.filter == self.filter,
    {
        let mut b = self;
        b.entities.clear();
        b
    }

    /// Discard the accumulated resources.
    pub fn clear_resources(self) -> (r: Self)
        ensures
            r.resources@ =~= Seq::<DynamicValue>::empty(),
            r.entities@ == self.entities@,
            r.filter == self.filter,
    {
        let mut b = self;
        b.resources.clear();
        b
    }

    /// Drop every accumulated entity record that holds no components.
    #[verifier::loop_isolation(false)]
    pub fn clear_empty(self) -> (r: Self)
        requires
            wf_builder(self),
        ensures
            wf_builder(r),
            r.entities@ == self.entities@.filter(|rec: EntityRecord| rec.components@.len() != 0),
            r.resources@ == self.resources@,
            r.filter == self.filter,
    {
        let mut entities_in = self.entities;
        let mut kept: Vec<EntityRecord> = Vec::new();
        let ghost orig = entities_in@;
        let ghost p = |rec: EntityRecord| rec.components@.len() != 0;
        let n = entities_in.len();
        let mut i: usize = 0;
        while i < n
            invariant
                i <= orig.len(),
                n == orig.len(),
                entities_in@ == orig.skip(i as int),
                kept@ == orig.take(i as int).filter(p),
            decreases orig.len() - i,
        {
            proof {
                assert(entities_in@[0] == orig[i as int]);
                assert(entities_in@.skip(1) =~= orig.skip(i + 1));
                lemma_filter_take_step(orig, p, i as int);
            }
            let rec = take_record(&mut entities_in, 0);
            proof {
                assert(rec == orig[i as int]);
                assert(p(orig[i as int]) == (rec.components@.len() != 0));
                assert(orig.take(i + 1).filter(p) == if p(orig[i as int]) {
                    orig.take(i as int).filter(p).push(orig[i as int])
                } else {
                    orig.take(i as int).filter(p)
                });
            }
            if rec.components.len() != 0 {
                kept.push(rec);
            }
            i = i + 1;
        }
        proof {
            assert(orig.take(orig.len() as int) =~= orig);
            lemma_filter_unique(orig, p);
            assert forall|j: int| 0 <= j < kept@.len() implies unique_keys(
                #[trigger] kept@[j].components@,
            ) by {
                assert(orig.filter(p).contains(kept@[j]));
                assert(orig.contains(kept@[j]));
                let w = choose|w: int| 0 <= w < orig.len() && orig[w] == kept@[j];
            }
        }
        Builder { filter: self.filter, entities: kept, resources: self.resources }
    }

    /// Finalize the accumulated buffers into an immutable snapshot, in
    /// buffer order.
    #[verifier::loop_isolation(false)]
    pub fn build(self) -> (r: RawSnapshot)
        requires
            wf_builder(self),
        ensures
            wf_snapshot(r),
            r.resources@ == self.resources@,
            r.entities@.len() == self.entities@.len(),
            forall|i: int|
                0 <= i < r.entities@.len() ==> (#[trigger] r.entities@[i]).entity
                    == self.entities@[i].id && r.entities@[i].components@
                    == self.entities@[i].components@,
    {
        let mut entities_in = self.entities;
        let mut entities: Vec<SaveableEntity> = Vec::new();
        let ghost orig = entities_in@;
        let n = entities_in.len();
        let mut i: usize = 0;
        while i < n
            invariant
                i <= orig.len(),
                n == orig.len(),
                entities_in@ == orig.skip(i as int),
                entities@.len() == i,
                forall|j: int|
                    0 <= j < i ==> (#[trigger] entities@[j]).entity == orig[j].id
                        && entities@[j].components@ == orig[j].components@,
            decreases orig.len() - i,
        {
            proof {
                assert(entities_in@[0] == orig[i as int]);
                assert(entities_in@.skip(1) =~= orig.skip(i + 1));
            }
            let rec = take_record(&mut entities_in, 0);
            entities.push(SaveableEntity { entity: rec.id, components: rec.components });
            i = i + 1;
        }
        proof {
            assert forall|a: int, b2: int|
                0 <= a < b2 < entities@.len() implies entities@[a].key()
                != entities@[b2].key() by {
                assert(orig[a].key() != orig[b2].key());
            }
        }
        RawSnapshot { resources: self.resources, entities }
    }
}

/// Remove and return the record at an index, shifting the rest down.
fn take_record(v: &mut Vec<EntityRecord>, i: usize) -> (r: EntityRecord)
    requires
        i < old(v)@.len(),
    ensures
        r == old(v)@[i as int],
        final(v)@ == old(v)@.remove(i as int),
{
    v.remove(i)
}

/// A detached record of the extractable components of the live entity at a
/// world index.
#[verifier::loop_isolation(false)]
fn extract_components(w: &World, f: &TypeFilter, wi: usize) -> (r: EntityRecord)
    requires
        wf_world(*w),
        wi < w.entities@.len(),
    ensures
        r.id == w.entities@[wi as int].id,
        dvs_eq(
            r.components@,
            extracted_components(w.registry, *f, w.entities@[wi as int].components@),
        ),
        unique_keys(r.components@),
{
    let ghost p = |c: DynamicValue| extractable_component(w.registry, *f, c.name);
    let ghost src = w.entities@[wi as int].components@;
    let mut out: Vec<DynamicValue> = Vec::new();
    let mut j: usize = 0;
    let n = w.entities[wi].components.len();
    while j < n
        invariant
            j <= src.len(),
            n == src.len(),
            wi < w.entities@.len(),
            wf_world(*w),
            src == w.entities@[wi as int].components@,
            dvs_eq(out@, src.take(j as int).filter(p)),
            unique_keys(out@),
            forall|m: int| 0 <= m < out@.len() ==> src.take(j as int).filter(p)[m].key()
                == out@[m].key(),
        decreases src.len() - j,
    {
        proof {
            assert(unique_keys(src));
            lemma_filter_take_step(src, p, j as int);
            assert(unique_keys(src.take(j as int))) by {
                assert forall|a: int, b: int|
                    0 <= a < b < src.take(j as int).len() implies src.take(j as int)[a].key()
                    != src.take(j as int)[b].key() by {
                    assert(src.take(j as int)[a] == src[a]);
                    assert(src.take(j as int)[b] == src[b]);
                }
            }
            lemma_filter_unique(src.take(j as int), p);
            if p(src[j as int]) {
                assert forall|m: int| 0 <= m < out@.len() implies out@[m].key()
                    != src[j as int].key() by {
                    let fl = src.take(j as int).filter(p);
                    assert(fl[m].key() == out@[m].key());
                    assert(fl.contains(fl[m]));
                    assert(src.take(j as int).contains(fl[m]));
                    let w2 = choose|w2: int|
                        0 <= w2 < src.take(j as int).len() && src.take(j as int)[w2] == fl[m];
                    assert(src[w2] == fl[m]);
                }
            }
        }
        let c = &w.entities[wi].components[j];
        proof {
            assert(*c == src[j as int]);
            assert(p(src[j as int]) == extractable_component(w.registry, *f, src[j as int].name));
        }
        if is_extractable_component(w, f, c.name) {
            let cc = c.clone_value();
            proof {
                assert(dv_eq(cc, src[j as int]));
                assert(cc.key() == src[j as int].key());
            }
            out.push(cc);
        }
        j = j + 1;
    }
    proof {
        assert(src.take(src.len() as int) =~= src);
    }
    EntityRecord { id: w.entities[wi].id, components: out }
}

/// Whether a type name is extractable as a component.
fn is_extractable_component(w: &World, f: &TypeFilter, name: u64) -> (r: bool)
    ensures
        r == extractable_component(w.registry, *f, name),
{
    if !w.registry.saveable_contains(name) {
        return false;
    }
    if !f.accepts(name) {
        return false;
    }
    match w.registry.lookup(name) {
        Some(t) => t.component_cap,
        None => false,
    }
}

/// Whether a type name is extractable as a resource.
fn is_extractable_resource(w: &World, f: &TypeFilter, name: u64) -> (r: bool)
    ensures
        r == extractable_resource(w.registry, *f, name),
{
    if !w.registry.saveable_contains(name) {
        return false;
    }
    if !f.accepts(name) {
        return false;
    }
    match w.registry.lookup(name) {
        Some(t) => t.resource_cap,
        None => false,
    }
}

/// Extract saveable resources, optionally restricted to a name list.
#[verifier::loop_isolation(false)]
fn extract_resources_where(b: Builder, w: &World, names: Option<&Vec<u64>>) -> (r: Builder)
    requires
        wf_world(*w),
        wf_builder(b),
    ensures
        wf_builder(r),
        r.filter == b.filter,
        r.entities@ == b.entities@,
        forall|n: u64|
            (match names {
                Some(ns) => ns@.contains(n),
                None => true,
            }) && extractable_resource(w.registry, b.filter, n) && resource_of(*w, n)
                is Some ==> match (find(r.resources@, n), resource_of(*w, n)) {
                (Some(v), Some(src)) => dv_eq(v, src),
                _ => false,
            },
        forall|n: u64|
            !((match names {
                Some(ns) => ns@.contains(n),
                None => true,
            }) && extractable_resource(w.registry, b.filter, n) && resource_of(*w, n) is Some)
                ==> find(r.resources@, n) == find(b.resources@, n),
{
    let mut out = b;
    let mut i: usize = 0;
    let n_save = w.registry.saveable.len();
    while i < n_save
        invariant
            i <= w.registry.saveable@.len(),
            n_save == w.registry.saveable@.len(),
            wf_world(*w),
            wf_builder(out),
            out.filter == b.filter,
            out.entities@ == b.entities@,
            forall|n: u64|
                w.registry.saveable@.take(i as int).contains(n) && (match names {
                    Some(ns) => ns@.contains(n),
                    None => true,
                }) && extractable_resource(w.registry, b.filter, n) && resource_of(*w, n)
                    is Some ==> match (find(out.resources@, n), resource_of(*w, n)) {
                    (Some(v), Some(src)) => dv_eq(v, src),
                    _ => false,
                },
            forall|n: u64|
                !(w.registry.saveable@.take(i as int).contains(n) && (match names {
                    Some(ns) => ns@.contains(n),
                    None => true,
                }) && extractable_resource(w.registry, b.filter, n) && resource_of(*w, n) is Some)
                    ==> find(out.resources@, n) == find(b.resources@, n),
        decreases w.registry.saveable@.len() - i,
    {
        let name = w.registry.saveable[i];
        let in_names = match names {
            Some(ns) => {
                match find_index(ns, name) {
                    Some(k) => {
                        proof {
                            assert(ns@[k as int] == name);
                        }
                        true
                    },
                    None => {
                        proof {
                            if ns@.contains(name) {
                                let k = choose|k: int| 0 <= k < ns@.len() && ns@[k] == name;
                                assert(ns@[k].key() == name);
                            }
                        }
                        false
                    },
                }
            },
            None => true,
        };
        if in_names && is_extractable_resource(w, &out.filter, name) {
            match w.get_resource(name) {
                Some(v) => {
                    proof {
                        lemma_find_some(w.resources@, name);
                    }
                    let copy = v.clone_value();
                    upsert(&mut out.resources, copy);
                },
                None => {},
            }
        }
        proof {
            assert(w.registry.saveable@.take(i + 1).drop_last() =~= w.registry.saveable@.take(
                i as int,
            ));
            assert(w.registry.saveable@.take(i + 1).last() == w.registry.saveable@[i as int]);
            assert forall|k: u64| w.registry.saveable@.take(i + 1).contains(k) implies w
                .registry.saveable@.take(i as int).contains(k) || k == name by {
                let j = choose|j: int|
                    0 <= j < i + 1 && #[trigger] w.registry.saveable@.take(i + 1)[j] == k;
                if j < i {
                    assert(w.registry.saveable@.take(i as int)[j] == k);
                }
            }
            assert forall|k: u64| w.registry.saveable@.take(i as int).contains(k) implies w
                .registry.saveable@.take(i + 1).contains(k) by {
                let j = choose|j: int|
                    0 <= j < i && #[trigger] w.registry.saveable@.take(i as int)[j] == k;
                assert(w.registry.saveable@.take(i + 1)[j] == k);
            }
        }
        i = i + 1;
    }
    proof {
        assert(w.registry.saveable@.take(w.registry.saveable@.len() as int)
            =~= w.registry.saveable@);
        assert forall|n: u64| is_saveable(w.registry, n) implies w.registry.saveable@.contains(
            n,
        ) by {}
    }
    out
}

} // verus!
