//! Laws of the library, stated and proved over the contracts of the
//! builder and the applier.

use vstd::prelude::*;

use crate::applier::{
    apply_chain, apply_post, despawn_selected, entity_comps_ok, hierarchy_post, hook_post,
    merge_err_at, merge_post, merged_fresh, parent_link, remap_fields, remap_post, resource_err,
    resources_post, resources_post_err_body, restored_resource, snapshot_comps_ok,
    strict_merge_ok, type_remaps, value_remapped, Applier, SaveableError,
};
use crate::policy::MappingMode;
use crate::value::{dvs_eq, Field};
use crate::world::{alive, components_of, wf_world};
use crate::builder::{
    extractable_component, extractable_resource, extracted_components, found_extracted, Builder,
    wf_builder,
};
use crate::entity_map::{em_lookup, em_pass};
use crate::keyed::{find, has_key, unique_keys, lemma_find_at, lemma_find_some, Keyed};
use crate::policy::DespawnMode;
use crate::snapshot::wf_snapshot;
use crate::registry::{reg_lookup, TypeFilter};
use crate::snapshot::RawSnapshot;
use crate::value::{dv_eq, DynamicValue};
use crate::world::{resource_of, EntityRecord, World};

verus! {

/// Despawn divergence: when a snapshot holds an entity whose original
/// identity has no caller-map entry, and no snapshot entity resolves
/// through the map to that identity, a live entity sharing it is kept by
/// `Missing` but removed by `Unmapped`.
pub proof fn lemma_despawn_divergence(
    s: RawSnapshot,
    m: Seq<(u64, u64)>,
    rec: EntityRecord,
    i: int,
)
    requires
        0 <= i < s.entities@.len(),
        s.entities@[i].entity == rec.id,
        em_lookup(m, rec.id) is None,
        forall|j: int|
            0 <= j < s.entities@.len() ==> em_lookup(m, (#[trigger] s.entities@[j]).entity)
                != Some(rec.id),
    ensures
        !despawn_selected(DespawnMode::Missing, s, m, rec),
        despawn_selected(DespawnMode::Unmapped, s, m, rec),
{
    assert(em_pass(m, s.entities@[i].entity) == rec.id);
}

/// Empty-filter extraction: a builder whose filter accepts no type, after
/// extracting any entities, holds only records with no components, so
/// dropping the empty records leaves no entity record at all.
pub proof fn lemma_empty_filter_extraction(w: World, ids: Seq<u64>, b: Builder)
    requires
        crate::world::wf_world(w),
        wf_builder(b),
        b.filter matches TypeFilter::AllowList(v) && v@.len() == 0,
        forall|k: u64|
            ids.contains(k) && crate::world::alive(w, k) ==> #[trigger] found_extracted(
                b.entities@,
                w,
                b.filter,
                k,
            ),
        forall|k: u64|
            !(ids.contains(k) && crate::world::alive(w, k)) ==> (#[trigger] find(b.entities@, k))
                is None,
    ensures
        b.entities@.filter(|rec: EntityRecord| rec.components@.len() != 0).len() == 0,
{
    assert forall|idx: int| 0 <= idx < b.entities@.len() implies (#[trigger] b.entities@[
        idx]).components@.len() == 0 by {
        let k = b.entities@[idx].key();
        lemma_find_at(b.entities@, k, idx);
        assert(find(b.entities@, k) == Some(b.entities@[idx]));
        assert(ids.contains(k) && crate::world::alive(w, k));
        assert(found_extracted(b.entities@, w, b.filter, k));
        let comps = crate::world::components_of(w, k);
        let p = |c: DynamicValue| extractable_component(w.registry, b.filter, c.name);
        assert(comps.all(|c: DynamicValue| !p(c))) by {
            assert forall|c: DynamicValue| comps.contains(c) implies !p(c) by {}
        }
        comps.lemma_all_neg_filter_empty(p);
        assert(extracted_components(w.registry, b.filter, comps).len() == 0);
    }
    let nonempty = |rec: EntityRecord| rec.components@.len() != 0;
    assert(b.entities@.all(|rec: EntityRecord| !nonempty(rec))) by {
        assert forall|rec: EntityRecord| b.entities@.contains(rec) implies !nonempty(rec) by {
            let idx = choose|idx: int| 0 <= idx < b.entities@.len() && b.entities@[idx] == rec;
        }
    }
    b.entities@.lemma_all_neg_filter_empty(nonempty);
}

/// Subset law: for any name set, extracting exactly those resources gives,
/// name for name, the same content as extracting all resources and then
/// restricting to the set; outside the set the buffer is untouched.
pub proof fn lemma_resource_subset(
    w: World,
    names: Seq<u64>,
    b0: Builder,
    br: Builder,
    ba: Builder,
)
    requires
        forall|n: u64|
            names.contains(n) && extractable_resource(w.registry, b0.filter, n) && resource_of(
                w,
                n,
            ) is Some ==> match (find(br.resources@, n), resource_of(w, n)) {
                (Some(v), Some(src)) => dv_eq(v, src),
                _ => false,
            },
        forall|n: u64|
            !(names.contains(n) && extractable_resource(w.registry, b0.filter, n) && resource_of(
                w,
                n,
            ) is Some) ==> find(br.resources@, n) == find(b0.resources@, n),
        forall|n: u64|
            extractable_resource(w.registry, b0.filter, n) && resource_of(w, n)
                is Some ==> match (find(ba.resources@, n), resource_of(w, n)) {
                (Some(v), Some(src)) => dv_eq(v, src),
                _ => false,
            },
        forall|n: u64|
            !(extractable_resource(w.registry, b0.filter, n) && resource_of(w, n) is Some) ==> find(
                ba.resources@,
                n,
            ) == find(b0.resources@, n),
    ensures
        forall|n: u64|
            names.contains(n) ==> match (
                #[trigger] find(br.resources@, n),
                find(ba.resources@, n),
            ) {
                (Some(x), Some(y)) => dv_eq(x, y),
                (None, None) => true,
                _ => false,
            },
        forall|n: u64|
            !names.contains(n) ==> (#[trigger] find(br.resources@, n)) == find(b0.resources@, n),
{
    assert forall|n: u64| names.contains(n) implies match (
        #[trigger] find(br.resources@, n),
        find(ba.resources@, n),
    ) {
        (Some(x), Some(y)) => dv_eq(x, y),
        (None, None) => true,
        _ => false,
    } by {
        if extractable_resource(w.registry, b0.filter, n) && resource_of(w, n) is Some {
        } else {
            assert(find(br.resources@, n) == find(b0.resources@, n));
            assert(find(ba.resources@, n) == find(b0.resources@, n));
            match find(b0.resources@, n) {
                Some(x) => {
                    assert(dv_eq(x, x));
                },
                None => {},
            }
        }
    }
}

/// Unregistered-type failure: applying a snapshot whose first failing
/// resource carries a type name absent from the registry returns exactly
/// `UnregisteredType` with that name, and no entity of the world is
/// touched: nothing from the snapshot is spawned.
pub proof fn lemma_unregistered_type_failure(
    w0: World,
    s: RawSnapshot,
    a: Applier,
    w9: World,
    r: Result<(), SaveableError>,
    i: int,
)
    requires
        apply_post(w0, s, a, w9, r),
        0 <= i < s.resources@.len(),
        reg_lookup(w0.registry, s.resources@[i].name) is None,
        forall|j: int|
            0 <= j < i ==> resource_err(w0.registry, a.map.pairs@, #[trigger] s.resources@[j])
                is None,
    ensures
        r == Err::<(), SaveableError>(
            SaveableError::UnregisteredType { name: s.resources@[i].name },
        ),
        w9.entities@ == w0.entities@,
{
    let (w1, r1, mode, w2, mm, fb0, w3, fb1, spawned, r3, w4, r4, w5): (
        World,
        Result<(), SaveableError>,
        DespawnMode,
        World,
        crate::policy::MappingMode,
        Seq<(u64, u64)>,
        World,
        Seq<(u64, u64)>,
        Seq<u64>,
        Result<(), SaveableError>,
        World,
        Result<(), SaveableError>,
        World,
    ) = choose|
        w1: World,
        r1: Result<(), SaveableError>,
        mode: DespawnMode,
        w2: World,
        mm: crate::policy::MappingMode,
        fb0: Seq<(u64, u64)>,
        w3: World,
        fb1: Seq<(u64, u64)>,
        spawned: Seq<u64>,
        r3: Result<(), SaveableError>,
        w4: World,
        r4: Result<(), SaveableError>,
        w5: World,
    |
        #[trigger] apply_chain(
            w0,
            s,
            a,
            w1,
            r1,
            mode,
            w2,
            mm,
            fb0,
            w3,
            fb1,
            spawned,
            r3,
            w4,
            r4,
            w5,
            w9,
            r,
        );
    assert(resource_err(w0.registry, a.map.pairs@, s.resources@[i]) == Some(
        SaveableError::UnregisteredType { name: s.resources@[i].name },
    ));
    match r1 {
        Ok(()) => {
            assert(resource_err(w0.registry, a.map.pairs@, s.resources@[i]) is None);
            assert(false);
        },
        Err(e) => {
            let i2 = choose|i2: int|
                #[trigger] resources_post_err_body(w0, s.resources@, a.map.pairs@, w1, e, i2);
            if i2 < i {
                assert(resource_err(w0.registry, a.map.pairs@, s.resources@[i2]) is None);
                assert(false);
            }
            if i < i2 {
                assert(resource_err(w0.registry, a.map.pairs@, s.resources@[i]) is None);
                assert(false);
            }
            assert(i2 == i);
            assert(e == SaveableError::UnregisteredType { name: s.resources@[i].name });
            assert(r == Err::<(), SaveableError>(e));
            assert(w9 == w1);
        },
    }
}

/// A field list without references is left unchanged by remapping.
pub proof fn lemma_no_refs_remap_id(fs: Seq<Field>, m: Seq<(u64, u64)>)
    requires
        forall|i: int| 0 <= i < fs.len() ==> !((#[trigger] fs[i]) matches Field::EntityRef(e)),
    ensures
        remap_fields(fs, m) == fs,
{
    assert(remap_fields(fs, m) =~= fs);
}

/// A keyed sequence in which no key can be found is empty.
pub proof fn lemma_find_none_empty<T: Keyed>(s: Seq<T>)
    requires
        forall|k: u64| (#[trigger] find(s, k)) is None,
    ensures
        s.len() == 0,
{
    if s.len() > 0 {
        lemma_find_at(s, s[0].key(), 0);
    }
}

/// After a successful global remap, lookup by identity relates the two
/// worlds' records component for component.
proof fn lemma_remap_entity_bridge(w3: World, m: Seq<(u64, u64)>, w4: World, id: u64)
    requires
        wf_world(w3),
        remap_post(w3, m, w4, Ok(())),
    ensures
        match (crate::world::entity_of(w3, id), crate::world::entity_of(w4, id)) {
            (Some(a), Some(b)) => a.id == b.id && b.components@.len() == a.components@.len()
                && forall|j: int|
                0 <= j < a.components@.len() ==> value_remapped(
                    w3.registry,
                    m,
                    #[trigger] a.components@[j],
                    b.components@[j],
                ),
            (None, None) => true,
            _ => false,
        },
{
    lemma_find_some(w3.entities@, id);
    lemma_find_some(w4.entities@, id);
    if crate::world::entity_of(w3, id) is Some {
        let a = crate::world::entity_of(w3, id)->Some_0;
        let idx = choose|idx: int| 0 <= idx < w3.entities@.len() && w3.entities@[idx] == a;
        assert forall|j: int| 0 <= j < idx implies (#[trigger] w3.entities@[j]).key() != id by {
            assert(w3.entities@[j].key() != w3.entities@[idx].key());
        }
        lemma_find_at(w3.entities@, id, idx);
        assert forall|j: int| 0 <= j < idx implies (#[trigger] w4.entities@[j]).key() != id by {
            assert(w4.entities@[j].id == w3.entities@[j].id);
            assert(w3.entities@[j].key() != w3.entities@[idx].key());
        }
        assert(w4.entities@[idx].id == w3.entities@[idx].id);
        lemma_find_at(w4.entities@, id, idx);
    } else {
        if crate::world::entity_of(w4, id) is Some {
            let b = crate::world::entity_of(w4, id)->Some_0;
            let idx = choose|idx: int| 0 <= idx < w4.entities@.len() && w4.entities@[idx] == b;
            assert(w4.entities@[idx].id == w3.entities@[idx].id);
            assert(w3.entities@[idx].key() == id);
            assert(false);
        }
    }
}

/// After a successful global remap, lookup by type name relates the two
/// worlds' resources.
proof fn lemma_remap_resource_bridge(w3: World, m: Seq<(u64, u64)>, w4: World, n: u64)
    requires
        wf_world(w3),
        remap_post(w3, m, w4, Ok(())),
    ensures
        match (resource_of(w3, n), resource_of(w4, n)) {
            (Some(a), Some(b)) => value_remapped(w3.registry, m, a, b),
            (None, None) => true,
            _ => false,
        },
{
    lemma_find_some(w3.resources@, n);
    lemma_find_some(w4.resources@, n);
    if resource_of(w3, n) is Some {
        let a = resource_of(w3, n)->Some_0;
        let idx = choose|idx: int| 0 <= idx < w3.resources@.len() && w3.resources@[idx] == a;
        assert forall|j: int| 0 <= j < idx implies (#[trigger] w3.resources@[j]).key() != n by {
            assert(w3.resources@[j].key() != w3.resources@[idx].key());
        }
        lemma_find_at(w3.resources@, n, idx);
        assert forall|j: int| 0 <= j < idx implies (#[trigger] w4.resources@[j]).key() != n by {
            assert(value_remapped(w3.registry, m, w3.resources@[j], w4.resources@[j]));
            assert(w3.resources@[j].key() != w3.resources@[idx].key());
        }
        assert(value_remapped(w3.registry, m, w3.resources@[idx], w4.resources@[idx]));
        lemma_find_at(w4.resources@, n, idx);
    } else {
        if resource_of(w4, n) is Some {
            let b = resource_of(w4, n)->Some_0;
            let idx = choose|idx: int| 0 <= idx < w4.resources@.len() && w4.resources@[idx] == b;
            assert(value_remapped(w3.registry, m, w3.resources@[idx], w4.resources@[idx]));
            assert(w3.resources@[idx].key() == n);
            assert(false);
        }
    }
}

/// The shape of one application under `DespawnMode::All` and
/// `MappingMode::Strict` with no per-entity adjustment, when every
/// snapshot resource restores cleanly, every snapshot component is
/// registered with the component capability, and no value involved carries
/// an entity reference: the application succeeds, the live entities are
/// exactly a fresh block of identities carrying, in capture order, exactly
/// the captured components, and the resources are the snapshot's, with
/// everything else untouched.
pub proof fn lemma_apply_all_strict_shape(
    w0: World,
    s: RawSnapshot,
    a: Applier,
    w9: World,
    r: Result<(), SaveableError>,
)
    requires
        apply_post(w0, s, a, w9, r),
        wf_snapshot(s),
        a.despawn == Some(DespawnMode::All),
        a.mapping == Some(MappingMode::Strict),
        a.hook is None,
        forall|i: int|
            0 <= i < s.resources@.len() ==> resource_err(
                w0.registry,
                a.map.pairs@,
                #[trigger] s.resources@[i],
            ) is None,
        snapshot_comps_ok(w0.registry, s),
        forall|i: int, j: int, f: int|
            0 <= i < s.entities@.len() && 0 <= j < s.entities@[i].components@.len() && 0 <= f
                < s.entities@[i].components@[j].fields@.len() ==> !((#[trigger] s.entities@[
            i].components@[j].fields@[f]) matches Field::EntityRef(e)),
        forall|i: int, f: int|
            0 <= i < s.resources@.len() && 0 <= f < s.resources@[i].fields@.len() ==> !((
            #[trigger] s.resources@[i].fields@[f]) matches Field::EntityRef(e)),
        forall|i: int, f: int|
            0 <= i < w0.resources@.len() && 0 <= f < w0.resources@[i].fields@.len()
                && type_remaps(w0.registry, w0.resources@[i].name) ==> !((#[trigger] w0.resources@[
            i].fields@[f]) matches Field::EntityRef(e)),
    ensures
        r is Ok,
        w9.registry == w0.registry,
        w9.next_id == w0.next_id + s.entities@.len(),
        forall|id: u64|
            #[trigger] alive(w9, id) <==> w0.next_id <= id < w0.next_id + s.entities@.len(),
        forall|i: int|
            0 <= i < s.entities@.len() ==> dvs_eq(
                components_of(w9, (w0.next_id + i) as u64),
                (#[trigger] s.entities@[i]).components@,
            ),
        forall|i: int|
            0 <= i < s.resources@.len() ==> (match resource_of(
                w9,
                (#[trigger] s.resources@[i]).name,
            ) {
                Some(out) => out.name == s.resources@[i].name && out.fields@ == s.resources@[
                    i].fields@,
                None => false,
            }),
        forall|n: u64|
            !has_key(s.resources@, n) ==> (match (
                #[trigger] resource_of(w9, n),
                resource_of(w0, n),
            ) {
                (Some(x), Some(y)) => dv_eq(x, y),
                (None, None) => true,
                _ => false,
            }),
{
    let (w1, r1, mode, w2, mm, fb0, w3, fb1, spawned, r3, w4, r4, w5): (
        World,
        Result<(), SaveableError>,
        DespawnMode,
        World,
        MappingMode,
        Seq<(u64, u64)>,
        World,
        Seq<(u64, u64)>,
        Seq<u64>,
        Result<(), SaveableError>,
        World,
        Result<(), SaveableError>,
        World,
    ) = choose|
        w1: World,
        r1: Result<(), SaveableError>,
        mode: DespawnMode,
        w2: World,
        mm: MappingMode,
        fb0: Seq<(u64, u64)>,
        w3: World,
        fb1: Seq<(u64, u64)>,
        spawned: Seq<u64>,
        r3: Result<(), SaveableError>,
        w4: World,
        r4: Result<(), SaveableError>,
        w5: World,
    |
        #[trigger] apply_chain(
            w0,
            s,
            a,
            w1,
            r1,
            mode,
            w2,
            mm,
            fb0,
            w3,
            fb1,
            spawned,
            r3,
            w4,
            r4,
            w5,
            w9,
            r,
        );
    let n = s.entities@.len() as int;
    let n0 = w0.next_id;
    // Phase 1 cannot fail and leaves the entities alone.
    match r1 {
        Err(e) => {
            let i2 = choose|i2: int|
                #[trigger] resources_post_err_body(w0, s.resources@, a.map.pairs@, w1, e, i2);
            assert(resource_err(w0.registry, a.map.pairs@, s.resources@[i2]) is None);
            assert(false);
        },
        Ok(()) => {},
    }
    assert(w1.entities@ == w0.entities@);
    assert(w1.next_id == w0.next_id);
    // Phase 2 under `All` removes every live entity.
    assert(mode is All);
    assert forall|k: u64| true implies !alive(w2, k) by {
        assert(find(w2.entities@, k) is None);
        lemma_find_some(w2.entities@, k);
    }
    assert(w2.next_id == n0);
    assert(w2.resources@ == w1.resources@);
    // Phase 4 cannot fail.
    match r3 {
        Err(e) => {
            let (i2, j2): (int, int) = choose|i2: int, j2: int|
                #[trigger] merge_err_at(w0.registry, s, e, i2, j2) && spawned.len() == i2 + 1;
            assert(entity_comps_ok(w0.registry, s.entities@[i2]));
            assert(false);
        },
        Ok(()) => {},
    }
    assert(strict_merge_ok(w2, s, spawned, w3));
    assert(w3.next_id == n0 + n);
    assert forall|id: u64| true implies (#[trigger] alive(w3, id) <==> n0 <= id < n0 + n) by {
        assert(alive(w3, id) <==> alive(w2, id) || spawned.contains(id));
        if spawned.contains(id) {
            let i2 = choose|i2: int| 0 <= i2 < spawned.len() && spawned[i2] == id;
            assert(spawned[i2] == n0 + i2);
        }
        if n0 <= id < n0 + n {
            assert(spawned[id - n0] == id);
            assert(spawned.contains(id));
        }
    }
    // No value in the merged world carries a reference, so phase 5 cannot
    // fail and rewrites nothing.
    assert forall|id: u64, j: int|
        alive(w3, id) && 0 <= j < components_of(w3, id).len() implies (#[trigger] components_of(
        w3,
        id,
    )[j]).fields@ == s.entities@[id - n0].components@[j].fields@ && components_of(w3, id)[j].name
        == s.entities@[id - n0].components@[j].name by {
        let i2 = id - n0;
        assert(spawned[i2] == id);
        assert(merged_fresh(w3, spawned[i2], s.entities@[i2]));
        assert(dv_eq(components_of(w3, id)[j], s.entities@[i2].components@[j]));
    }
    match r4 {
        Err(e) => {
            assert(!crate::applier::world_mappable(w3, fb1));
            assert forall|i2: int, j2: int|
                0 <= i2 < w3.entities@.len() && 0 <= j2 < w3.entities@[i2].components@.len()
                    && type_remaps(w3.registry, (#[trigger] w3.entities@[i2].components@[
                j2]).name) implies crate::applier::fields_mappable(
                w3.entities@[i2].components@[j2].fields@,
                fb1,
            ) by {
                let id = w3.entities@[i2].id;
                assert(w3.entities@[i2].key() == id);
                assert(alive(w3, id));
                lemma_find_at(w3.entities@, id, i2);
                assert(components_of(w3, id) == w3.entities@[i2].components@);
                assert(components_of(w3, id)[j2].fields@ == s.entities@[
                    id - n0].components@[j2].fields@);
            }
            assert forall|i2: int|
                0 <= i2 < w3.resources@.len() && type_remaps(
                    w3.registry,
                    (#[trigger] w3.resources@[i2]).name,
                ) implies crate::applier::fields_mappable(w3.resources@[i2].fields@, fb1) by {
                let v = w3.resources@[i2];
                let nm = v.key();
                assert(w3.resources@ == w1.resources@);
                lemma_find_at(w1.resources@, nm, i2);
                assert(resource_of(w1, nm) == Some(v));
                if has_key(s.resources@, nm) {
                    let si = choose|si: int|
                        0 <= si < s.resources@.len() && (#[trigger] s.resources@[si]).key() == nm;
                    assert(restored_resource(w1, w0.registry, a.map.pairs@, s.resources@[si]));
                    assert(v.fields@ == s.resources@[si].fields@ || v.fields@ == remap_fields(
                        s.resources@[si].fields@,
                        a.map.pairs@,
                    ));
                    lemma_no_refs_remap_id(s.resources@[si].fields@, a.map.pairs@);
                    assert(v.fields@ == s.resources@[si].fields@);
                } else {
                    assert(resource_of(w1, nm) == resource_of(w0, nm));
                    lemma_find_some(w0.resources@, nm);
                    let wi = choose|wi: int|
                        0 <= wi < w0.resources@.len() && w0.resources@[wi] == v;
                    assert(w0.resources@[wi].name == v.name);
                }
            }
            assert(false);
        },
        Ok(()) => {},
    }
    // Phases 6 and 7 leave everything in place: no parent links exist, and
    // no adjustment is configured.
    assert(w9 == w5);
    assert(w4.next_id == w3.next_id);
    assert(w5.next_id == w4.next_id);
    // Entity content of the final world.
    assert forall|id: u64| true implies (#[trigger] alive(w9, id) <==> n0 <= id < n0 + n) by {
        assert(alive(w9, id) == alive(w5, id));
        assert(alive(w5, id) == alive(w4, id));
        lemma_remap_entity_bridge(w3, fb1, w4, id);
        lemma_find_some(w3.entities@, id);
        lemma_find_some(w4.entities@, id);
        assert(alive(w4, id) == alive(w3, id));
        assert(alive(w3, id) <==> n0 <= id < n0 + n);
    }
    assert forall|i: int|
        0 <= i < n implies dvs_eq(
        components_of(w9, (n0 + i) as u64),
        (#[trigger] s.entities@[i]).components@,
    ) by {
        let id = (n0 + i) as u64;
        assert(spawned[i] == id);
        assert(merged_fresh(w3, spawned[i], s.entities@[i]));
        lemma_remap_entity_bridge(w3, fb1, w4, id);
        let a3 = crate::world::entity_of(w3, id)->Some_0;
        let b4 = crate::world::entity_of(w4, id)->Some_0;
        assert forall|j: int| 0 <= j < a3.components@.len() implies dv_eq(
            #[trigger] b4.components@[j],
            s.entities@[i].components@[j],
        ) by {
            assert(value_remapped(w3.registry, fb1, a3.components@[j], b4.components@[j]));
            assert(components_of(w3, id)[j].fields@ == s.entities@[i].components@[j].fields@);
            lemma_no_refs_remap_id(s.entities@[i].components@[j].fields@, fb1);
        }
        // Phase 6 does not touch the record: it carries no parent link.
        assert(spawned.contains(id));
        lemma_find_some(w3.entities@, id);
        lemma_find_some(w4.entities@, id);
        assert(alive(w4, id));
        match parent_link(components_of(w4, id), w4.registry.parent_name) {
            Some(p) => {
                let c = find(components_of(w4, id), w4.registry.parent_name)->Some_0;
                lemma_find_some(b4.components@, w4.registry.parent_name);
                let cj = choose|cj: int|
                    0 <= cj < b4.components@.len() && b4.components@[cj] == c;
                assert(dv_eq(b4.components@[cj], s.entities@[i].components@[cj]));
                assert(c.fields@[0] == s.entities@[i].components@[cj].fields@[0]);
                assert(false);
            },
            None => {
                assert(crate::world::entity_of(w5, id) == crate::world::entity_of(w4, id));
            },
        }
    }
    // Resource content of the final world.
    assert(w5.resources@ == w4.resources@);
    assert forall|i: int|
        0 <= i < s.resources@.len() implies (match resource_of(
        w9,
        (#[trigger] s.resources@[i]).name,
    ) {
        Some(out) => out.name == s.resources@[i].name && out.fields@ == s.resources@[i].fields@,
        None => false,
    }) by {
        let nm = s.resources@[i].name;
        assert(restored_resource(w1, w0.registry, a.map.pairs@, s.resources@[i]));
        lemma_no_refs_remap_id(s.resources@[i].fields@, a.map.pairs@);
        lemma_remap_resource_bridge(w3, fb1, w4, nm);
        assert(w3.resources@ == w1.resources@);
        let out3 = resource_of(w3, nm)->Some_0;
        assert(out3.fields@ == s.resources@[i].fields@);
        lemma_no_refs_remap_id(out3.fields@, fb1);
    }
    assert forall|nm: u64|
        !has_key(s.resources@, nm) implies (match (
        #[trigger] resource_of(w9, nm),
        resource_of(w0, nm),
    ) {
        (Some(x), Some(y)) => dv_eq(x, y),
        (None, None) => true,
        _ => false,
    }) by {
        assert(resource_of(w1, nm) == resource_of(w0, nm));
        lemma_remap_resource_bridge(w3, fb1, w4, nm);
        assert(w3.resources@ == w1.resources@);
        match resource_of(w0, nm) {
            Some(y) => {
                let x4 = resource_of(w4, nm)->Some_0;
                assert(value_remapped(w3.registry, fb1, y, x4));
                if type_remaps(w3.registry, y.name) {
                    lemma_find_some(w0.resources@, nm);
                    let wi = choose|wi: int|
                        0 <= wi < w0.resources@.len() && w0.resources@[wi] == y;
                    lemma_no_refs_remap_id(y.fields@, fb1);
                }
                assert(dv_eq(x4, y));
            },
            None => {},
        }
    }
}

/// Round-trip: a snapshot that captures a world, applied under `Strict`
/// mapping into an emptied target world over the same registry, produces a
/// world isomorphic to the captured one under component comparison: every
/// captured entity reappears, under a fresh identity, with the same
/// components, and nothing else is live. Holds when every captured value
/// is registered with its capability and carries no entity reference: a
/// reference-carrying value is rewritten through the run's own working
/// map, so component equality would have to be read through that renaming,
/// and a value of a type without the remapping capability keeps its stale
/// reference; this lemma states the reference-free core.
pub proof fn lemma_round_trip(
    w: World,
    s: RawSnapshot,
    w0: World,
    a: Applier,
    w9: World,
    r: Result<(), SaveableError>,
)
    requires
        wf_snapshot(s),
        forall|k: u64| #[trigger] alive(w, k) <==> has_key(s.entities@, k),
        forall|i: int|
            0 <= i < s.entities@.len() ==> dvs_eq(
                (#[trigger] s.entities@[i]).components@,
                components_of(w, s.entities@[i].entity),
            ),
        apply_post(w0, s, a, w9, r),
        w0.entities@.len() == 0,
        w0.resources@.len() == 0,
        w0.registry == w.registry,
        a.despawn == Some(DespawnMode::All),
        a.mapping == Some(MappingMode::Strict),
        a.hook is None,
        forall|i: int|
            0 <= i < s.resources@.len() ==> resource_err(
                w0.registry,
                a.map.pairs@,
                #[trigger] s.resources@[i],
            ) is None,
        snapshot_comps_ok(w0.registry, s),
        forall|i: int, j: int, f: int|
            0 <= i < s.entities@.len() && 0 <= j < s.entities@[i].components@.len() && 0 <= f
                < s.entities@[i].components@[j].fields@.len() ==> !((#[trigger] s.entities@[
            i].components@[j].fields@[f]) matches Field::EntityRef(e)),
        forall|i: int, f: int|
            0 <= i < s.resources@.len() && 0 <= f < s.resources@[i].fields@.len() ==> !((
            #[trigger] s.resources@[i].fields@[f]) matches Field::EntityRef(e)),
    ensures
        r is Ok,
        forall|id: u64|
            #[trigger] alive(w9, id) <==> w0.next_id <= id < w0.next_id + s.entities@.len(),
        forall|k: u64|
            #[trigger] alive(w, k) ==> exists|i: int|
                0 <= i < s.entities@.len() && (#[trigger] s.entities@[i]).entity == k && dvs_eq(
                    components_of(w9, (w0.next_id + i) as u64),
                    components_of(w, k),
                ),
{
    lemma_apply_all_strict_shape(w0, s, a, w9, r);
    assert forall|k: u64| #[trigger] alive(w, k) implies exists|i: int|
        0 <= i < s.entities@.len() && (#[trigger] s.entities@[i]).entity == k && dvs_eq(
            components_of(w9, (w0.next_id + i) as u64),
            components_of(w, k),
        ) by {
        let i = choose|i: int|
            0 <= i < s.entities@.len() && (#[trigger] s.entities@[i]).key() == k;
        assert(s.entities@[i].entity == k);
        assert(dvs_eq(components_of(w9, (w0.next_id + i) as u64), s.entities@[i].components@));
        assert(dvs_eq(s.entities@[i].components@, components_of(w, k)));
        assert(dvs_eq(components_of(w9, (w0.next_id + i) as u64), components_of(w, k)));
    }
}

/// Idempotence: applying the same snapshot twice, each time preceded by
/// `DespawnMode::All` under `Strict` mapping, yields component-for-component
/// identical worlds: the same number of fresh entities, carrying pairwise
/// the same components, and name-for-name the same resources. Holds when
/// every involved value is registered with its capability and carries no
/// entity reference.
pub proof fn lemma_idempotence(
    w0: World,
    s: RawSnapshot,
    a: Applier,
    w9: World,
    r: Result<(), SaveableError>,
    w99: World,
    r2: Result<(), SaveableError>,
)
    requires
        wf_snapshot(s),
        wf_world(w9),
        apply_post(w0, s, a, w9, r),
        apply_post(w9, s, a, w99, r2),
        a.despawn == Some(DespawnMode::All),
        a.mapping == Some(MappingMode::Strict),
        a.hook is None,
        forall|i: int|
            0 <= i < s.resources@.len() ==> resource_err(
                w0.registry,
                a.map.pairs@,
                #[trigger] s.resources@[i],
            ) is None,
        snapshot_comps_ok(w0.registry, s),
        forall|i: int, j: int, f: int|
            0 <= i < s.entities@.len() && 0 <= j < s.entities@[i].components@.len() && 0 <= f
                < s.entities@[i].components@[j].fields@.len() ==> !((#[trigger] s.entities@[
            i].components@[j].fields@[f]) matches Field::EntityRef(e)),
        forall|i: int, f: int|
            0 <= i < s.resources@.len() && 0 <= f < s.resources@[i].fields@.len() ==> !((
            #[trigger] s.resources@[i].fields@[f]) matches Field::EntityRef(e)),
        forall|i: int, f: int|
            0 <= i < w0.resources@.len() && 0 <= f < w0.resources@[i].fields@.len() ==> !((
            #[trigger] w0.resources@[i].fields@[f]) matches Field::EntityRef(e)),
    ensures
        r is Ok,
        r2 is Ok,
        forall|id: u64|
            #[trigger] alive(w9, id) <==> w0.next_id <= id < w0.next_id + s.entities@.len(),
        forall|id: u64|
            #[trigger] alive(w99, id) <==> w9.next_id <= id < w9.next_id + s.entities@.len(),
        forall|i: int|
            0 <= i < s.entities@.len() ==> dvs_eq(
                components_of(w9, (w0.next_id + i) as u64),
                (#[trigger] s.entities@[i]).components@,
            ),
        forall|i: int|
            0 <= i < s.entities@.len() ==> dvs_eq(
                components_of(w99, (w9.next_id + i) as u64),
                (#[trigger] s.entities@[i]).components@,
            ),
        forall|n: u64|
            match (#[trigger] resource_of(w99, n), resource_of(w9, n)) {
                (Some(x), Some(y)) => dv_eq(x, y),
                (None, None) => true,
                _ => false,
            },
{
    lemma_apply_all_strict_shape(w0, s, a, w9, r);
    assert forall|i: int, f: int|
        0 <= i < w9.resources@.len() && 0 <= f < w9.resources@[i].fields@.len()
        implies !((#[trigger] w9.resources@[i].fields@[f]) matches Field::EntityRef(e)) by {
        let v = w9.resources@[i];
        let nm = v.key();
        assert forall|j: int| 0 <= j < i implies (#[trigger] w9.resources@[j]).key() != nm by {
            assert(w9.resources@[j].key() != w9.resources@[i].key());
        }
        lemma_find_at(w9.resources@, nm, i);
        assert(resource_of(w9, nm) == Some(v));
        if has_key(s.resources@, nm) {
            let si = choose|si: int|
                0 <= si < s.resources@.len() && (#[trigger] s.resources@[si]).key() == nm;
            assert(v.fields@ == s.resources@[si].fields@);
        } else {
            let y = resource_of(w0, nm)->Some_0;
            assert(dv_eq(v, y));
            lemma_find_some(w0.resources@, nm);
            let wi = choose|wi: int| 0 <= wi < w0.resources@.len() && w0.resources@[wi] == y;
            assert(v.fields@ == w0.resources@[wi].fields@);
        }
    }
    assert(w9.registry == w0.registry);
    lemma_apply_all_strict_shape(w9, s, a, w99, r2);
    assert forall|n: u64| true implies match (
        #[trigger] resource_of(w99, n),
        resource_of(w9, n),
    ) {
        (Some(x), Some(y)) => dv_eq(x, y),
        (None, None) => true,
        _ => false,
    } by {
        if has_key(s.resources@, n) {
            let si = choose|si: int|
                0 <= si < s.resources@.len() && (#[trigger] s.resources@[si]).key() == n;
            let x = resource_of(w99, s.resources@[si].name)->Some_0;
            let y = resource_of(w9, s.resources@[si].name)->Some_0;
            assert(x.fields@ == s.resources@[si].fields@);
            assert(y.fields@ == s.resources@[si].fields@);
        }
    }
}

/// Filtering keeps everything when the predicate accepts every element.
proof fn lemma_filter_all_pos<T>(s: Seq<T>, p: spec_fn(T) -> bool)
    requires
        forall|i: int| 0 <= i < s.len() ==> p(#[trigger] s[i]),
    ensures
        s.filter(p) == s,
    decreases s.len(),
{
    reveal(Seq::filter);
    if s.len() > 0 {
        assert forall|i: int| 0 <= i < s.drop_last().len() implies p(
            #[trigger] s.drop_last()[i],
        ) by {
            assert(s.drop_last()[i] == s[i]);
        }
        lemma_filter_all_pos(s.drop_last(), p);
        assert(s.filter(p) =~= s);
    } else {
        assert(s.filter(p) =~= s);
    }
}

/// A snapshot built from a full extraction captures the world: the
/// snapshot's entities are exactly the live entities, each carrying the
/// same components, when every component type is extractable.
pub proof fn lemma_build_captures(w: World, b: Builder, s: RawSnapshot)
    requires
        wf_world(w),
        wf_builder(b),
        forall|i: int, j: int|
            0 <= i < w.entities@.len() && 0 <= j < w.entities@[i].components@.len()
                ==> extractable_component(
                w.registry,
                b.filter,
                (#[trigger] w.entities@[i].components@[j]).name,
            ),
        forall|k: u64|
            alive(w, k) ==> #[trigger] found_extracted(b.entities@, w, b.filter, k),
        forall|k: u64| !alive(w, k) ==> (#[trigger] find(b.entities@, k)) is None,
        s.entities@.len() == b.entities@.len(),
        forall|i: int|
            0 <= i < s.entities@.len() ==> (#[trigger] s.entities@[i]).entity == b.entities@[i].id
                && s.entities@[i].components@ == b.entities@[i].components@,
    ensures
        forall|k: u64| #[trigger] alive(w, k) <==> has_key(s.entities@, k),
        forall|i: int|
            0 <= i < s.entities@.len() ==> dvs_eq(
                (#[trigger] s.entities@[i]).components@,
                components_of(w, s.entities@[i].entity),
            ),
{
    assert forall|k: u64| #[trigger] alive(w, k) implies has_key(s.entities@, k) by {
        assert(found_extracted(b.entities@, w, b.filter, k));
        lemma_find_some(b.entities@, k);
        let v = find(b.entities@, k)->Some_0;
        let idx = choose|idx: int| 0 <= idx < b.entities@.len() && b.entities@[idx] == v;
        assert(s.entities@[idx].entity == k);
        assert(s.entities@[idx].key() == k);
    }
    assert forall|k: u64| has_key(s.entities@, k) implies alive(w, k) by {
        let idx = choose|idx: int| 0 <= idx < s.entities@.len() && s.entities@[idx].key() == k;
        assert(b.entities@[idx].id == k);
        assert forall|j: int| 0 <= j < idx implies (#[trigger] b.entities@[j]).key() != k by {
            assert(b.entities@[j].key() != b.entities@[idx].key());
        }
        lemma_find_at(b.entities@, k, idx);
        if !alive(w, k) {
            assert(find(b.entities@, k) is None);
            assert(false);
        }
    }
    assert forall|i: int| 0 <= i < s.entities@.len() implies dvs_eq(
        (#[trigger] s.entities@[i]).components@,
        components_of(w, s.entities@[i].entity),
    ) by {
        let k = s.entities@[i].entity;
        assert(s.entities@[i].key() == k);
        assert(alive(w, k));
        assert forall|j: int| 0 <= j < i implies (#[trigger] b.entities@[j]).key() != k by {
            assert(b.entities@[j].key() != b.entities@[i].key());
        }
        lemma_find_at(b.entities@, k, i);
        assert(found_extracted(b.entities@, w, b.filter, k));
        assert(crate::builder::extracted_record_ok(w, b.filter, k, b.entities@[i]));
        let widx = choose|widx: int|
            0 <= widx < w.entities@.len() && (#[trigger] w.entities@[widx]).key() == k;
        assert forall|j: int| 0 <= j < widx implies (#[trigger] w.entities@[j]).key() != k by {
            assert(w.entities@[j].key() != w.entities@[widx].key());
        }
        lemma_find_at(w.entities@, k, widx);
        let comps = components_of(w, k);
        assert(comps == w.entities@[widx].components@);
        let p = |c: DynamicValue| extractable_component(w.registry, b.filter, c.name);
        assert forall|j: int| 0 <= j < comps.len() implies p(#[trigger] comps[j]) by {
            assert(extractable_component(w.registry, b.filter, w.entities@[widx].components@[
                j].name));
        }
        lemma_filter_all_pos(comps, p);
        assert(extracted_components(w.registry, b.filter, comps) == comps);
        assert(dvs_eq(b.entities@[i].components@, comps));
    }
}

/// Despawn divergence at the applier: under `Unmapped` despawning and
/// `Strict` mapping, a live identity that no snapshot entity resolves to
/// through the caller map is gone from the final world whenever the
/// resource phase passes — even if the merge phase fails later. Together
/// with `lemma_despawn_divergence` (under `Missing` the identity-sharing
/// entity is not selected), the two modes compute different despawn sets
/// on the same fixture.
pub proof fn lemma_unmapped_despawns_unmatched(
    w0: World,
    s: RawSnapshot,
    a: Applier,
    w9: World,
    r: Result<(), SaveableError>,
    k: u64,
)
    requires
        apply_post(w0, s, a, w9, r),
        wf_world(w0),
        alive(w0, k),
        a.despawn == Some(DespawnMode::Unmapped),
        a.mapping == Some(MappingMode::Strict),
        forall|j: int|
            0 <= j < s.entities@.len() ==> em_lookup(a.map.pairs@, (#[trigger] s.entities@[
                j]).entity) != Some(k),
        forall|i: int|
            0 <= i < s.resources@.len() ==> resource_err(
                w0.registry,
                a.map.pairs@,
                #[trigger] s.resources@[i],
            ) is None,
    ensures
        !alive(w9, k),
{
    let (w1, r1, mode, w2, mm, fb0, w3, fb1, spawned, r3, w4, r4, w5): (
        World,
        Result<(), SaveableError>,
        DespawnMode,
        World,
        MappingMode,
        Seq<(u64, u64)>,
        World,
        Seq<(u64, u64)>,
        Seq<u64>,
        Result<(), SaveableError>,
        World,
        Result<(), SaveableError>,
        World,
    ) = choose|
        w1: World,
        r1: Result<(), SaveableError>,
        mode: DespawnMode,
        w2: World,
        mm: MappingMode,
        fb0: Seq<(u64, u64)>,
        w3: World,
        fb1: Seq<(u64, u64)>,
        spawned: Seq<u64>,
        r3: Result<(), SaveableError>,
        w4: World,
        r4: Result<(), SaveableError>,
        w5: World,
    |
        #[trigger] apply_chain(
            w0,
            s,
            a,
            w1,
            r1,
            mode,
            w2,
            mm,
            fb0,
            w3,
            fb1,
            spawned,
            r3,
            w4,
            r4,
            w5,
            w9,
            r,
        );
    match r1 {
        Err(e) => {
            let i2 = choose|i2: int|
                #[trigger] resources_post_err_body(w0, s.resources@, a.map.pairs@, w1, e, i2);
            assert(resource_err(w0.registry, a.map.pairs@, s.resources@[i2]) is None);
            assert(false);
        },
        Ok(()) => {},
    }
    // The despawn phase removes k: no snapshot entity resolves to it.
    assert(mode is Unmapped);
    assert(!crate::applier::valid_unmapped(s, a.map.pairs@, k));
    assert(!alive(w2, k)) by {
        match find(w1.entities@, k) {
            Some(rec) => {
                lemma_find_some(w1.entities@, k);
                assert(rec.id == k);
                assert(despawn_selected(mode, s, a.map.pairs@, rec));
                assert(find(w2.entities@, k) is None);
            },
            None => {
                assert(find(w2.entities@, k) is None);
            },
        }
        lemma_find_some(w2.entities@, k);
    }
    // Strict targets are fresh, so the merge never revives k.
    assert(!alive(w3, k)) by {
        assert(k < w0.next_id) by {
            let ki = choose|ki: int|
                0 <= ki < w0.entities@.len() && (#[trigger] w0.entities@[ki]).key() == k;
        }
        assert(w2.next_id == w0.next_id);
        if spawned.contains(k) {
            let si = choose|si: int| 0 <= si < spawned.len() && spawned[si] == k;
            assert(spawned[si] == w2.next_id + si);
            assert(false);
        }
    }
    match r3 {
        Err(e) => {
            assert(w9 == w3);
        },
        Ok(()) => {
            assert(!alive(w4, k)) by {
                if has_key(w4.entities@, k) {
                    let ki = choose|ki: int|
                        0 <= ki < w4.entities@.len() && (#[trigger] w4.entities@[ki]).key() == k;
                    assert(w4.entities@[ki].id == w3.entities@[ki].id);
                    assert(w3.entities@[ki].key() == k);
                }
            }
            match r4 {
                Err(e) => {
                    assert(w9 == w4);
                },
                Ok(()) => {
                    assert(!alive(w5, k));
                    match a.hook {
                        Some(hv) => {
                            assert(alive(w9, k) <==> alive(w5, k));
                        },
                        None => {
                            assert(w9 == w5);
                        },
                    }
                },
            }
        },
    }
}

/// Despawn divergence, the `Missing` side, at the applier: a live identity
/// that some snapshot entity reaches under pass-through mapping is never
/// despawned, whatever the mapping mode, whenever the resource phase
/// passes: no later phase removes entities.
pub proof fn lemma_missing_keeps_matched(
    w0: World,
    s: RawSnapshot,
    a: Applier,
    w9: World,
    r: Result<(), SaveableError>,
    k: u64,
)
    requires
        apply_post(w0, s, a, w9, r),
        alive(w0, k),
        a.despawn == Some(DespawnMode::Missing),
        exists|j: int|
            0 <= j < s.entities@.len() && em_pass(a.map.pairs@, (#[trigger] s.entities@[
                j]).entity) == k,
        forall|i: int|
            0 <= i < s.resources@.len() ==> resource_err(
                w0.registry,
                a.map.pairs@,
                #[trigger] s.resources@[i],
            ) is None,
    ensures
        alive(w9, k),
{
    let (w1, r1, mode, w2, mm, fb0, w3, fb1, spawned, r3, w4, r4, w5): (
        World,
        Result<(), SaveableError>,
        DespawnMode,
        World,
        MappingMode,
        Seq<(u64, u64)>,
        World,
        Seq<(u64, u64)>,
        Seq<u64>,
        Result<(), SaveableError>,
        World,
        Result<(), SaveableError>,
        World,
    ) = choose|
        w1: World,
        r1: Result<(), SaveableError>,
        mode: DespawnMode,
        w2: World,
        mm: MappingMode,
        fb0: Seq<(u64, u64)>,
        w3: World,
        fb1: Seq<(u64, u64)>,
        spawned: Seq<u64>,
        r3: Result<(), SaveableError>,
        w4: World,
        r4: Result<(), SaveableError>,
        w5: World,
    |
        #[trigger] apply_chain(
            w0,
            s,
            a,
            w1,
            r1,
            mode,
            w2,
            mm,
            fb0,
            w3,
            fb1,
            spawned,
            r3,
            w4,
            r4,
            w5,
            w9,
            r,
        );
    match r1 {
        Err(e) => {
            let i2 = choose|i2: int|
                #[trigger] resources_post_err_body(w0, s.resources@, a.map.pairs@, w1, e, i2);
            assert(resource_err(w0.registry, a.map.pairs@, s.resources@[i2]) is None);
            assert(false);
        },
        Ok(()) => {},
    }
    assert(mode is Missing);
    assert(crate::applier::valid_missing(s, a.map.pairs@, k));
    assert(alive(w2, k)) by {
        lemma_find_some(w1.entities@, k);
        let rec = find(w1.entities@, k)->Some_0;
        assert(rec.id == k);
        assert(!despawn_selected(mode, s, a.map.pairs@, rec));
        assert(find(w2.entities@, k) == Some(rec));
        lemma_find_some(w2.entities@, k);
    }
    assert(alive(w3, k));
    match r3 {
        Err(e) => {
            assert(w9 == w3);
        },
        Ok(()) => {
            assert(alive(w4, k)) by {
                lemma_find_some(w3.entities@, k);
                let ki = choose|ki: int|
                    0 <= ki < w3.entities@.len() && (#[trigger] w3.entities@[ki]).key() == k;
                assert(w4.entities@[ki].id == w3.entities@[ki].id);
                assert(w4.entities@[ki].key() == k);
            }
            match r4 {
                Err(e) => {
                    assert(w9 == w4);
                },
                Ok(()) => {
                    assert(alive(w5, k));
                    match a.hook {
                        Some(hv) => {
                            assert(alive(w9, k) <==> alive(w5, k));
                        },
                        None => {
                            assert(w9 == w5);
                        },
                    }
                },
            }
        },
    }
}

} // verus!
