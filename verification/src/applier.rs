//! The applier: consumes a snapshot plus policy configuration and mutates a
//! target world in ordered phases: resource restore, despawn selection,
//! identity resolution and component merge, global reference remap,
//! hierarchy fix-up, and an optional per-entity adjustment.
//!
//! Application is fail-fast: the first error aborts the remaining phases,
//! and mutations already committed are not rolled back.

use vstd::prelude::*;

use crate::entity_map::{em_lookup, em_pass, EntityMap};
use crate::keyed::{
    find, has_key, unique_keys, find_index, Keyed, lemma_find_at, lemma_find_skip_push,
    lemma_find_some,
};
use crate::policy::{dm_eq, filter_matches, DespawnMode, EntityFilter, MappingMode};
use crate::registry::{reg_lookup, Registry};
use crate::snapshot::{wf_snapshot, RawSnapshot, SaveableEntity};
use crate::value::{dv_eq, CloneReflect, DynamicValue, Field};
use crate::world::{
    alive, components_of, entity_of, resource_of, wf_world, EntityRecord, World,
};

verus! {

/// A typed application failure. The first error encountered aborts the
/// remaining phases; committed mutations stay in the world.
#[derive(Clone, Copy, PartialEq, Eq, Structural, Debug)]
pub enum SaveableError {
    /// A type name referenced by the snapshot has no registry entry at all.
    UnregisteredType { name: u64 },
    /// The type is registered but lacks the resource-insertion capability.
    UnregisteredResource { name: u64 },
    /// The type is registered but lacks the component-insertion capability.
    UnregisteredComponent { name: u64 },
    /// A reference-remap invocation met an identity with no map entry.
    MapEntitiesError { entity: u64 },
}

/// One field after remapping: references are rewritten through the map,
/// plain data passes through.
pub open spec fn remap_field(f: Field, m: Seq<(u64, u64)>) -> Field {
    match f {
        Field::EntityRef(e) => match em_lookup(m, e) {
            Some(v) => Field::EntityRef(v),
            None => f,
        },
        Field::Data(d) => f,
    }
}

/// A field list after remapping.
pub open spec fn remap_fields(fs: Seq<Field>, m: Seq<(u64, u64)>) -> Seq<Field> {
    fs.map_values(|f: Field| remap_field(f, m))
}

/// Every reference in the field list has a map entry.
pub open spec fn fields_mappable(fs: Seq<Field>, m: Seq<(u64, u64)>) -> bool {
    forall|i: int|
        0 <= i < fs.len() ==> ((#[trigger] fs[i]) matches Field::EntityRef(e) ==> em_lookup(m, e)
            is Some)
}

/// Position `i` holds the first reference without a map entry.
pub open spec fn first_unmapped_at(fs: Seq<Field>, m: Seq<(u64, u64)>, i: int) -> bool {
    &&& 0 <= i < fs.len()
    &&& fs[i] matches Field::EntityRef(e) && em_lookup(m, e) is None
    &&& forall|j: int|
        0 <= j < i ==> ((#[trigger] fs[j]) matches Field::EntityRef(e2) ==> em_lookup(m, e2)
            is Some)
}

/// The identity carried by the first reference without a map entry.
pub open spec fn first_unmapped(fs: Seq<Field>, m: Seq<(u64, u64)>) -> u64 {
    (choose|p: (int, u64)|
        #[trigger] first_unmapped_at(fs, m, p.0) && fs[p.0] == Field::EntityRef(p.1)).1
}

/// The first unmapped position is unique, so the chosen identity is the one
/// found by a scan.
pub proof fn lemma_first_unmapped(fs: Seq<Field>, m: Seq<(u64, u64)>, i: int, e: u64)
    requires
        first_unmapped_at(fs, m, i),
        fs[i] == Field::EntityRef(e),
    ensures
        first_unmapped(fs, m) == e,
        !fields_mappable(fs, m),
{
    let ghost pr = (i, e);
    assert(first_unmapped_at(fs, m, pr.0) && fs[pr.0] == Field::EntityRef(pr.1));
    let pick = choose|p: (int, u64)|
        #[trigger] first_unmapped_at(fs, m, p.0) && fs[p.0] == Field::EntityRef(p.1);
    let i2 = pick.0;
    if i2 != i {
        if i2 < i {
            assert(fs[i2] matches Field::EntityRef(x) ==> em_lookup(m, x) is Some);
        } else {
            assert(fs[i] matches Field::EntityRef(x) ==> em_lookup(m, x) is Some);
        }
        assert(false);
    }
}

/// Rewrite every reference in the value through the map. On a reference
/// without an entry, the value is left unchanged and the error carries the
/// first such identity.
pub fn remap_value(v: &mut DynamicValue, m: &EntityMap) -> (r: Result<(), SaveableError>)
    ensures
        final(v).name == old(v).name,
        match r {
            Ok(()) => fields_mappable(old(v).fields@, m.pairs@) && final(v).fields@ == remap_fields(
                old(v).fields@,
                m.pairs@,
            ),
            Err(e) => !fields_mappable(old(v).fields@, m.pairs@) && e
                == (SaveableError::MapEntitiesError {
                entity: first_unmapped(old(v).fields@, m.pairs@),
            }) && em_lookup(m.pairs@, first_unmapped(old(v).fields@, m.pairs@)) is None
                && final(v).fields@ == old(v).fields@,
        },
{
    let ghost fs = v.fields@;
    let mut out: Vec<Field> = Vec::new();
    let mut i: usize = 0;
    let n = v.fields.len();
    #[verifier::loop_isolation(false)]
    while i < n
        invariant
            i <= fs.len(),
            out@ == remap_fields(fs, m.pairs@).take(i as int),
            forall|j: int|
                0 <= j < i ==> ((#[trigger] fs[j]) matches Field::EntityRef(e2) ==> em_lookup(
                    m.pairs@,
                    e2,
                ) is Some),
        decreases fs.len() - i,
    {
        let f = v.fields[i];
        match f {
            Field::EntityRef(e) => {
                match m.get(e) {
                    Some(t) => {
                        out.push(Field::EntityRef(t));
                    },
                    None => {
                        proof {
                            assert(first_unmapped_at(fs, m.pairs@, i as int));
                            lemma_first_unmapped(fs, m.pairs@, i as int, e);
                        }
                        return Err(SaveableError::MapEntitiesError { entity: e });
                    },
                }
            },
            Field::Data(d) => {
                out.push(f);
            },
        }
        proof {
            assert(remap_fields(fs, m.pairs@).take(i + 1) =~= remap_fields(fs, m.pairs@).take(
                i as int,
            ).push(remap_field(fs[i as int], m.pairs@)));
        }
        i = i + 1;
    }
    proof {
        assert(remap_fields(fs, m.pairs@).take(fs.len() as int) =~= remap_fields(fs, m.pairs@));
    }
    v.fields = out;
    Ok(())
}

/// Whether a snapshot entity resolves, under pass-through mapping, to the
/// given live identity: the `Missing` validity notion.
pub open spec fn valid_missing(s: RawSnapshot, m: Seq<(u64, u64)>, id: u64) -> bool {
    exists|i: int|
        0 <= i < s.entities@.len() && em_pass(m, (#[trigger] s.entities@[i]).entity) == id
}

/// Whether a snapshot entity resolves, through an explicit map entry, to
/// the given live identity: the `Unmapped` validity notion. Snapshot
/// entities without a map entry do not count toward validity.
pub open spec fn valid_unmapped(s: RawSnapshot, m: Seq<(u64, u64)>, id: u64) -> bool {
    exists|i: int|
        0 <= i < s.entities@.len() && em_lookup(m, (#[trigger] s.entities@[i]).entity) == Some(id)
}

/// Whether the despawn phase removes the given live record.
pub open spec fn despawn_selected(
    mode: DespawnMode,
    s: RawSnapshot,
    m: Seq<(u64, u64)>,
    rec: EntityRecord,
) -> bool {
    match mode {
        DespawnMode::Keep => false,
        DespawnMode::All => true,
        DespawnMode::AllWith(f) => filter_matches(f, rec.components@),
        DespawnMode::Missing => !valid_missing(s, m, rec.id),
        DespawnMode::MissingWith(f) => !valid_missing(s, m, rec.id) && filter_matches(
            f,
            rec.components@,
        ),
        DespawnMode::Unmapped => !valid_unmapped(s, m, rec.id),
        DespawnMode::UnmappedWith(f) => !valid_unmapped(s, m, rec.id) && filter_matches(
            f,
            rec.components@,
        ),
    }
}

/// The effective despawn mode: the explicit override, else the world-level
/// default, else the no-op default.
pub open spec fn effective_despawn(over: Option<DespawnMode>, def: Option<DespawnMode>) -> DespawnMode {
    match over {
        Some(mode) => mode,
        None => match def {
            Some(mode) => mode,
            None => DespawnMode::Keep,
        },
    }
}

/// The effective mapping mode: the explicit override, else the world-level
/// default, else `Simple`.
pub open spec fn effective_mapping(over: Option<MappingMode>, def: Option<MappingMode>) -> MappingMode {
    match over {
        Some(mode) => mode,
        None => match def {
            Some(mode) => mode,
            None => MappingMode::Simple,
        },
    }
}

/// Whether a snapshot entity resolves under pass-through mapping to `id`.
fn is_valid_missing(s: &RawSnapshot, m: &EntityMap, id: u64) -> (r: bool)
    ensures
        r == valid_missing(*s, m.pairs@, id),
{
    let mut i: usize = 0;
    while i < s.entities.len()
        invariant
            i <= s.entities@.len(),
            forall|j: int|
                0 <= j < i ==> em_pass(m.pairs@, (#[trigger] s.entities@[j]).entity) != id,
        decreases s.entities@.len() - i,
    {
        if s.entities[i].try_map(m) == id {
            return true;
        }
        i = i + 1;
    }
    false
}

/// Whether a snapshot entity resolves through an explicit map entry to `id`.
fn is_valid_unmapped(s: &RawSnapshot, m: &EntityMap, id: u64) -> (r: bool)
    ensures
        r == valid_unmapped(*s, m.pairs@, id),
{
    let mut i: usize = 0;
    while i < s.entities.len()
        invariant
            i <= s.entities@.len(),
            forall|j: int|
                0 <= j < i ==> em_lookup(m.pairs@, (#[trigger] s.entities@[j]).entity) != Some(id),
        decreases s.entities@.len() - i,
    {
        match s.entities[i].map(m) {
            Some(t) => {
                if t == id {
                    return true;
                }
            },
            None => {},
        }
        i = i + 1;
    }
    false
}

/// Whether the despawn phase removes the given record.
fn is_selected(mode: &DespawnMode, s: &RawSnapshot, m: &EntityMap, rec: &EntityRecord) -> (r: bool)
    ensures
        r == despawn_selected(*mode, *s, m.pairs@, *rec),
{
    match mode {
        DespawnMode::Keep => false,
        DespawnMode::All => true,
        DespawnMode::AllWith(f) => f.matches(&rec.components),
        DespawnMode::Missing => !is_valid_missing(s, m, rec.id),
        DespawnMode::MissingWith(f) => !is_valid_missing(s, m, rec.id) && f.matches(
            &rec.components,
        ),
        DespawnMode::Unmapped => !is_valid_unmapped(s, m, rec.id),
        DespawnMode::UnmappedWith(f) => !is_valid_unmapped(s, m, rec.id) && f.matches(
            &rec.components,
        ),
    }
}

/// What the despawn phase leaves in the world: exactly the live records the
/// effective mode does not select, in world order, with everything else
/// untouched.
pub open spec fn despawn_post(
    w0: World,
    s: RawSnapshot,
    m: Seq<(u64, u64)>,
    mode: DespawnMode,
    w1: World,
) -> bool {
    &&& w1.entities@ == w0.entities@.filter(
        |rec: EntityRecord| !despawn_selected(mode, s, m, rec),
    )
    &&& forall|k: u64|
        (#[trigger] find(w1.entities@, k)) == (match find(w0.entities@, k) {
            Some(rec) => if despawn_selected(mode, s, m, rec) {
                None
            } else {
                Some(rec)
            },
            None => None::<EntityRecord>,
        })
    &&& w1.resources@ == w0.resources@
    &&& w1.registry == w0.registry
    &&& w1.next_id == w0.next_id
    &&& w1.default_despawn == w0.default_despawn
    &&& w1.default_mapping == w0.default_mapping
}

/// Remove every live entity the effective despawn mode selects, before the
/// snapshot's entities are applied.
#[verifier::loop_isolation(false)]
pub fn apply_despawn(
    w: &mut World,
    s: &RawSnapshot,
    m: &EntityMap,
    over: &Option<DespawnMode>,
) -> (mode: Ghost<DespawnMode>)
    requires
        wf_world(*old(w)),
    ensures
        wf_world(*final(w)),
        dm_eq(mode@, effective_despawn(*over, old(w).default_despawn)),
        despawn_post(*old(w), *s, m.pairs@, mode@, *final(w)),
{
    let eff: DespawnMode = match over {
        Some(mode) => mode.duplicate(),
        None => match &w.default_despawn {
            Some(mode) => mode.duplicate(),
            None => DespawnMode::Keep,
        },
    };
    let ghost w0 = *w;
    let ghost p = |rec: EntityRecord| !despawn_selected(eff, *s, m.pairs@, rec);
    let ghost orig = w.entities@;
    let mut kept: Vec<EntityRecord> = Vec::new();
    let n = w.entities.len();
    let mut i: usize = 0;
    while i < n
        invariant
            i <= orig.len(),
            n == orig.len(),
            w.entities@ == orig.skip(i as int),
            w.resources@ == w0.resources@,
            w.registry == w0.registry,
            w.next_id == w0.next_id,
            w.default_despawn == w0.default_despawn,
            w.default_mapping == w0.default_mapping,
            kept@ == orig.take(i as int).filter(p),
            unique_keys(kept@),
            forall|k: u64|
                (#[trigger] find(kept@, k)) == (match find(orig.take(i as int), k) {
                    Some(rec) => if despawn_selected(eff, *s, m.pairs@, rec) {
                        None
                    } else {
                        Some(rec)
                    },
                    None => None::<EntityRecord>,
                }),
        decreases orig.len() - i,
    {
        proof {
            assert(w.entities@[0] == orig[i as int]);
            assert(w.entities@.skip(1) =~= orig.skip(i + 1));
            crate::keyed::lemma_filter_take_step(orig, p, i as int);
            assert(orig.take(i + 1) =~= orig.take(i as int).push(orig[i as int]));
        }
        let ghost prev_kept = kept@;
        let ghost rec_s = orig[i as int];
        let rec = record_out(&mut w.entities);
        let keep_it = !is_selected(&eff, s, m, &rec);
        proof {
            assert(p(rec_s) == keep_it);
            assert forall|k: u64| true implies (#[trigger] find(orig.take(i + 1), k)) == (if k
                == rec_s.key() {
                Some(rec_s)
            } else {
                find(orig.take(i as int), k)
            }) by {
                if k == rec_s.key() {
                    assert forall|j: int| 0 <= j < i implies (#[trigger] orig.take(i + 1)[j]).key()
                        != k by {
                        assert(orig.take(i + 1)[j] == orig[j]);
                        assert(orig[j].key() != orig[i as int].key());
                    }
                    lemma_find_at(orig.take(i + 1), k, i as int);
                } else {
                    lemma_find_skip_push(orig.take(i as int), rec_s, k);
                }
            }
            if keep_it {
                assert forall|j: int| 0 <= j < prev_kept.len() implies (#[trigger] prev_kept[j]).key()
                    != rec_s.key() by {
                    crate::keyed::lemma_filter_unique(orig.take(i as int), p);
                    assert(prev_kept.contains(prev_kept[j]));
                    let w2 = choose|w2: int|
                        0 <= w2 < orig.take(i as int).len() && orig.take(i as int)[w2]
                            == prev_kept[j];
                    assert(orig[w2] == prev_kept[j]);
                }
            }
        }
        if keep_it {
            kept.push(rec);
        }
        proof {
            assert forall|k: u64| true implies (#[trigger] find(kept@, k)) == (match find(
                orig.take(i + 1),
                k,
            ) {
                Some(r2) => if despawn_selected(eff, *s, m.pairs@, r2) {
                    None
                } else {
                    Some(r2)
                },
                None => None::<EntityRecord>,
            }) by {
                if k == rec_s.key() {
                    assert forall|j: int| 0 <= j < i implies (#[trigger] orig.take(
                        i as int,
                    )[j]).key() != k by {
                        assert(orig.take(i as int)[j] == orig[j]);
                        assert(orig[j].key() != orig[i as int].key());
                    }
                    lemma_find_some(orig.take(i as int), k);
                    assert(find(orig.take(i as int), k) is None);
                    assert(find(prev_kept, k) is None);
                    if keep_it {
                        assert(kept@ == prev_kept.push(rec_s));
                        lemma_find_at(kept@, k, prev_kept.len() as int);
                    }
                } else {
                    if keep_it {
                        assert(kept@ == prev_kept.push(rec_s));
                        lemma_find_skip_push(prev_kept, rec_s, k);
                    }
                    assert(find(kept@, k) == find(prev_kept, k));
                }
            }
        }
        i = i + 1;
    }
    proof {
        assert(orig.take(orig.len() as int) =~= orig);
    }
    w.entities = kept;
    proof {
        assert forall|j: int| 0 <= j < w.entities@.len() implies crate::world::wf_record(
            #[trigger] w.entities@[j],
        ) && w.entities@[j].id < w.next_id by {
            crate::keyed::lemma_filter_unique(orig, p);
            assert(w.entities@.contains(w.entities@[j]));
            let w2 = choose|w2: int| 0 <= w2 < orig.len() && orig[w2] == w.entities@[j];
            assert(orig[w2] == w.entities@[j]);
        }
    }
    Ghost(eff)
}

/// Move the first record out of the list.
fn record_out(v: &mut Vec<EntityRecord>) -> (r: EntityRecord)
    requires
        old(v)@.len() > 0,
    ensures
        r == old(v)@[0],
        final(v)@ == old(v)@.remove(0),
        final(v)@ =~= old(v)@.skip(1),
{
    v.remove(0)
}

/// The failure one snapshot resource produces under the caller map, if any:
/// an unregistered name, a missing resource capability, or an unmappable
/// reference in a type that remaps references.
pub open spec fn resource_err(reg: Registry, m: Seq<(u64, u64)>, v: DynamicValue) -> Option<
    SaveableError,
> {
    match reg_lookup(reg, v.name) {
        None => Some(SaveableError::UnregisteredType { name: v.name }),
        Some(t) => if !t.resource_cap {
            Some(SaveableError::UnregisteredResource { name: v.name })
        } else if t.map_entities_cap && !fields_mappable(v.fields@, m) {
            Some(SaveableError::MapEntitiesError { entity: first_unmapped(v.fields@, m) })
        } else {
            None
        },
    }
}

/// The world holds, under the resource's type name, its restored value:
/// remapped through the caller map when the type remaps references.
pub open spec fn restored_resource(w: World, reg: Registry, m: Seq<(u64, u64)>, v: DynamicValue) -> bool {
    match resource_of(w, v.name) {
        Some(out) => out.name == v.name && out.fields@ == (match reg_lookup(reg, v.name) {
            Some(t) => if t.map_entities_cap {
                remap_fields(v.fields@, m)
            } else {
                v.fields@
            },
            None => v.fields@,
        }),
        None => false,
    }
}

/// The error-case outcome of the resource-restore phase, at a known
/// failing index: the prefix is restored, the failing resource stays raw
/// exactly when its remap failed, and everything else is untouched.
pub open spec fn resources_post_err_body(
    w0: World,
    rs: Seq<DynamicValue>,
    m: Seq<(u64, u64)>,
    w1: World,
    e: SaveableError,
    i: int,
) -> bool {
    &&& 0 <= i < rs.len()
    &&& resource_err(w0.registry, m, rs[i]) == Some(e)
    &&& forall|j: int| 0 <= j < i ==> resource_err(w0.registry, m, #[trigger] rs[j]) is None
    &&& forall|j: int| 0 <= j < i ==> restored_resource(w1, w0.registry, m, #[trigger] rs[j])
    &&& (e matches SaveableError::MapEntitiesError { entity } ==> match resource_of(
        w1,
        rs[i].name,
    ) {
        Some(out) => out.name == rs[i].name && out.fields@ == rs[i].fields@,
        None => false,
    })
    &&& (!(e matches SaveableError::MapEntitiesError { entity }) ==> resource_of(w1, rs[i].name)
        == resource_of(w0, rs[i].name))
    &&& forall|n: u64|
        !has_key(rs.take(i + 1), n) ==> (#[trigger] resource_of(w1, n)) == resource_of(w0, n)
}

/// What the resource-restore phase does: on success every snapshot resource
/// is restored; on failure the first failing resource pins the error.
/// Entities are never touched.
pub open spec fn resources_post(
    w0: World,
    rs: Seq<DynamicValue>,
    m: Seq<(u64, u64)>,
    w1: World,
    r: Result<(), SaveableError>,
) -> bool {
    &&& w1.entities@ == w0.entities@
    &&& w1.registry == w0.registry
    &&& w1.next_id == w0.next_id
    &&& w1.default_despawn == w0.default_despawn
    &&& w1.default_mapping == w0.default_mapping
    &&& match r {
        Ok(()) => {
            &&& forall|i: int|
                0 <= i < rs.len() ==> resource_err(w0.registry, m, #[trigger] rs[i]) is None
            &&& forall|i: int|
                0 <= i < rs.len() ==> restored_resource(w1, w0.registry, m, #[trigger] rs[i])
            &&& forall|n: u64|
                !has_key(rs, n) ==> (#[trigger] resource_of(w1, n)) == resource_of(w0, n)
        },
        Err(e) => exists|i: int| #[trigger] resources_post_err_body(w0, rs, m, w1, e, i),
    }
}

/// Provide the failing index as the witness for the error case of
/// `resources_post`.
proof fn witness_resource_err(
    w0: World,
    rs: Seq<DynamicValue>,
    m: Seq<(u64, u64)>,
    w1: World,
    i: int,
)
    requires
        0 <= i < rs.len(),
        resource_err(w0.registry, m, rs[i]) is Some,
        forall|j: int| 0 <= j < i ==> resource_err(w0.registry, m, #[trigger] rs[j]) is None,
        forall|j: int| 0 <= j < i ==> restored_resource(w1, w0.registry, m, #[trigger] rs[j]),
        forall|n: u64|
            !has_key(rs.take(i), n) && n != rs[i].name ==> (#[trigger] resource_of(w1, n))
                == resource_of(w0, n),
        resource_err(w0.registry, m, rs[i]) matches Some(e2) ==> ((e2
            matches SaveableError::MapEntitiesError { entity } ==> match resource_of(
            w1,
            rs[i].name,
        ) {
            Some(out) => out.name == rs[i].name && out.fields@ == rs[i].fields@,
            None => false,
        }) && (!(e2 matches SaveableError::MapEntitiesError { entity }) ==> resource_of(
            w1,
            rs[i].name,
        ) == resource_of(w0, rs[i].name))),
        unique_keys(rs),
    ensures
        match resource_err(w0.registry, m, rs[i]) {
            Some(e) => resources_post_err_body(w0, rs, m, w1, e, i),
            None => true,
        },
{
    assert(rs.take(i + 1)[i] == rs[i]);
    assert(has_key(rs.take(i + 1), rs[i].name));
    assert forall|n: u64|
        !has_key(rs.take(i + 1), n) implies (#[trigger] resource_of(w1, n)) == resource_of(
        w0,
        n,
    ) by {
        assert(n != rs[i].name);
        assert forall|j: int| 0 <= j < i implies (#[trigger] rs.take(i)[j]).key() != n by {
            if rs.take(i)[j].key() == n {
                assert(rs.take(i + 1)[j] == rs.take(i)[j]);
                assert(rs.take(i + 1)[j].key() == n);
            }
        }
        assert(!has_key(rs.take(i), n));
    }
}

/// Restore every snapshot resource into the world, in snapshot order:
/// resolve its registration by name, require the resource capability,
/// insert or overwrite it, and, when the type remaps references, rewrite
/// its references through the caller map at once. Fails fast on the first
/// error; the raw value of a resource whose remap failed stays inserted.
#[verifier::loop_isolation(false)]
pub fn apply_resources(w: &mut World, rs: &Vec<DynamicValue>, m: &EntityMap) -> (r: Result<
    (),
    SaveableError,
>)
    requires
        wf_world(*old(w)),
        unique_keys(rs@),
    ensures
        wf_world(*final(w)),
        resources_post(*old(w), rs@, m.pairs@, *final(w), r),
{
    let ghost w0 = *w;
    let mut i: usize = 0;
    let n = rs.len();
    while i < n
        invariant
            i <= rs@.len(),
            n == rs@.len(),
            wf_world(*w),
            w.entities@ == w0.entities@,
            w.registry == w0.registry,
            w.next_id == w0.next_id,
            w.default_despawn == w0.default_despawn,
            w.default_mapping == w0.default_mapping,
            forall|j: int|
                0 <= j < i ==> resource_err(w0.registry, m.pairs@, #[trigger] rs@[j]) is None,
            forall|j: int|
                0 <= j < i ==> restored_resource(*w, w0.registry, m.pairs@, #[trigger] rs@[j]),
            forall|nm: u64|
                !has_key(rs@.take(i as int), nm) ==> (#[trigger] resource_of(*w, nm))
                    == resource_of(w0, nm),
        decreases rs@.len() - i,
    {
        let v = &rs[i];
        proof {
            assert(rs@.take(i + 1).drop_last() =~= rs@.take(i as int));
            assert forall|nm: u64| has_key(rs@.take(i + 1), nm) implies has_key(
                rs@.take(i as int),
                nm,
            ) || nm == rs@[i as int].name by {
                let j = choose|j: int|
                    0 <= j < rs@.take(i + 1).len() && (#[trigger] rs@.take(i + 1)[j]).key() == nm;
                if j < i {
                    assert(rs@.take(i as int)[j].key() == nm);
                }
            }
            assert forall|j: int| 0 <= j < i implies rs@[j].name != rs@[i as int].name by {
                assert(rs@[j].key() != rs@[i as int].key());
            }
        }
        let reg = match w.registry.lookup(v.name) {
            Some(t) => t,
            None => {
                proof {
                    witness_resource_err(w0, rs@, m.pairs@, *w, i as int);
                }
                return Err(SaveableError::UnregisteredType { name: v.name });
            },
        };
        if !reg.resource_cap {
            proof {
                witness_resource_err(w0, rs@, m.pairs@, *w, i as int);
            }
            return Err(SaveableError::UnregisteredResource { name: v.name });
        }
        let raw = v.clone_value();
        w.insert_resource(raw);
        if reg.map_entities_cap {
            let mut mapped = v.clone_value();
            match remap_value(&mut mapped, m) {
                Ok(()) => {
                    w.insert_resource(mapped);
                },
                Err(e) => {
                    proof {
                        witness_resource_err(w0, rs@, m.pairs@, *w, i as int);
                    }
                    return Err(e);
                },
            }
        }
        proof {
            assert(rs@.take(i + 1)[i as int] == rs@[i as int]);
            assert(has_key(rs@.take(i + 1), rs@[i as int].name));
            assert forall|nm: u64|
                !has_key(rs@.take(i + 1), nm) implies (#[trigger] resource_of(*w, nm))
                == resource_of(w0, nm) by {
                assert(nm != rs@[i as int].name);
                assert(!has_key(rs@.take(i as int), nm)) by {
                    if has_key(rs@.take(i as int), nm) {
                        let j = choose|j: int|
                            0 <= j < i && (#[trigger] rs@.take(i as int)[j]).key() == nm;
                        assert(rs@.take(i + 1)[j] == rs@.take(i as int)[j]);
                        assert(rs@.take(i + 1)[j].key() == nm);
                    }
                }
            }
            assert forall|j: int|
                0 <= j <= i implies restored_resource(*w, w0.registry, m.pairs@, rs@[j]) by {
                if j < i {
                    assert(rs@[j].name != rs@[i as int].name);
                }
            }
        }
        i = i + 1;
    }
    proof {
        assert(rs@.take(rs@.len() as int) =~= rs@);
    }
    Ok(())
}

/// The failure one snapshot component produces, if any: an unregistered
/// name or a missing component capability.
pub open spec fn component_err(reg: Registry, c: DynamicValue) -> Option<SaveableError> {
    match reg_lookup(reg, c.name) {
        None => Some(SaveableError::UnregisteredType { name: c.name }),
        Some(t) => if t.component_cap {
            None
        } else {
            Some(SaveableError::UnregisteredComponent { name: c.name })
        },
    }
}

/// Every component of the captured entity is registered with the component
/// capability.
pub open spec fn entity_comps_ok(reg: Registry, e: SaveableEntity) -> bool {
    forall|j: int|
        0 <= j < e.components@.len() ==> component_err(reg, #[trigger] e.components@[j]) is None
}

/// Every component of every captured entity passes.
pub open spec fn snapshot_comps_ok(reg: Registry, s: RawSnapshot) -> bool {
    forall|i: int| 0 <= i < s.entities@.len() ==> entity_comps_ok(reg, #[trigger] s.entities@[i])
}

/// The lexicographically first failing component pins the error.
pub open spec fn merge_err_at(reg: Registry, s: RawSnapshot, e: SaveableError, i: int, j: int) -> bool {
    &&& 0 <= i < s.entities@.len()
    &&& 0 <= j < s.entities@[i].components@.len()
    &&& component_err(reg, s.entities@[i].components@[j]) == Some(e)
    &&& forall|i2: int| 0 <= i2 < i ==> entity_comps_ok(reg, #[trigger] s.entities@[i2])
    &&& forall|j2: int|
        0 <= j2 < j ==> component_err(reg, #[trigger] s.entities@[i].components@[j2]) is None
}

/// The target entity carries exactly the captured components, in capture
/// order: the result of merging them onto a freshly created entity.
pub open spec fn merged_fresh(w1: World, id: u64, e: SaveableEntity) -> bool {
    match entity_of(w1, id) {
        Some(rec) => rec.id == id && crate::value::dvs_eq(rec.components@, e.components@),
        None => false,
    }
}

/// Under `Strict`, targets are consecutive fresh identities and each holds
/// exactly its captured components.
pub open spec fn strict_merge_ok(w0: World, s: RawSnapshot, spawned: Seq<u64>, w1: World) -> bool {
    &&& w1.next_id == w0.next_id + s.entities@.len()
    &&& forall|i: int| 0 <= i < spawned.len() ==> spawned[i] == w0.next_id + i
    &&& forall|i: int| 0 <= i < spawned.len() ==> !alive(w0, #[trigger] spawned[i])
    &&& forall|i: int|
        0 <= i < s.entities@.len() ==> merged_fresh(w1, #[trigger] spawned[i], s.entities@[i])
}

/// Under `Simple`, each target is the caller map's entry when present, else
/// the entity's own identity when it is still live, else a fresh identity.
pub open spec fn simple_targets_ok(
    w0: World,
    s: RawSnapshot,
    caller: Seq<(u64, u64)>,
    spawned: Seq<u64>,
) -> bool {
    forall|i: int|
        0 <= i < spawned.len() ==> {
            let orig = (#[trigger] s.entities@[i]).entity;
            match em_lookup(caller, orig) {
                Some(t) => spawned[i] == t,
                None => if alive(w0, orig) {
                    spawned[i] == orig
                } else {
                    spawned[i] >= w0.next_id && !alive(w0, spawned[i])
                },
            }
        }
}

/// A later captured entity resolves to the same target and carries a
/// component under the same type name, so its value wins the structural
/// merge over entity `i`'s.
pub open spec fn overridden_later(s: RawSnapshot, spawned: Seq<u64>, i: int, name: u64) -> bool {
    exists|i2: int|
        i < i2 < spawned.len() && #[trigger] spawned[i2] == spawned[i] && has_key(
            s.entities@[i2].components@,
            name,
        )
}

/// No captured entity resolving to this target carries a component under
/// this type name: the merge never writes the name on the target.
pub open spec fn name_untouched(s: RawSnapshot, spawned: Seq<u64>, id: u64, name: u64) -> bool {
    forall|i: int|
        0 <= i < spawned.len() && #[trigger] spawned[i] == id ==> !has_key(
            s.entities@[i].components@,
            name,
        )
}

/// The structural merge, in either mapping mode: each captured component
/// stands on its target under its type name, unless a later captured
/// entity resolving to the same target overwrote the name; names no
/// captured entity wrote keep the target's prior value, or are absent on a
/// freshly created target.
pub open spec fn merged_content_ok(w0: World, s: RawSnapshot, spawned: Seq<u64>, w1: World) -> bool {
    &&& forall|i: int, j: int|
        0 <= i < s.entities@.len() && 0 <= j < s.entities@[i].components@.len()
            && !overridden_later(s, spawned, i, s.entities@[i].components@[j].name) ==> match find(
            components_of(w1, spawned[i]),
            (#[trigger] s.entities@[i].components@[j]).name,
        ) {
            Some(c) => crate::value::dv_eq(c, s.entities@[i].components@[j]),
            None => false,
        }
    &&& forall|id: u64, n: u64|
        spawned.contains(id) && name_untouched(s, spawned, id, n) ==> (#[trigger] find(
            components_of(w1, id),
            n,
        )) == (if alive(w0, id) {
            find(components_of(w0, id), n)
        } else {
            None::<DynamicValue>
        })
}

/// What the per-entity resolution and merge phase does.
pub open spec fn merge_post(
    w0: World,
    s: RawSnapshot,
    caller: Seq<(u64, u64)>,
    mode: MappingMode,
    fb0: Seq<(u64, u64)>,
    w1: World,
    fb1: Seq<(u64, u64)>,
    spawned: Seq<u64>,
    r: Result<(), SaveableError>,
) -> bool {
    &&& w1.resources@ == w0.resources@
    &&& w1.registry == w0.registry
    &&& w1.default_despawn == w0.default_despawn
    &&& w1.default_mapping == w0.default_mapping
    &&& w1.next_id >= w0.next_id
    &&& spawned.len() <= s.entities@.len()
    &&& forall|id: u64|
        !spawned.contains(id) ==> (#[trigger] entity_of(w1, id)) == entity_of(w0, id)
    &&& forall|id: u64| #[trigger] alive(w1, id) <==> alive(w0, id) || spawned.contains(id)
    &&& forall|i: int|
        0 <= i < spawned.len() ==> em_lookup(fb1, (#[trigger] s.entities@[i]).entity) == Some(
            spawned[i],
        )
    &&& forall|k: u64|
        !has_key(s.entities@.take(spawned.len() as int), k) ==> (#[trigger] em_lookup(fb1, k))
            == em_lookup(fb0, k)
    &&& match r {
        Ok(()) => {
            &&& snapshot_comps_ok(w0.registry, s)
            &&& spawned.len() == s.entities@.len()
            &&& merged_content_ok(w0, s, spawned, w1)
            &&& (mode is Strict ==> strict_merge_ok(w0, s, spawned, w1))
            &&& (mode is Simple ==> simple_targets_ok(w0, s, caller, spawned))
        },
        Err(e) => exists|i: int, j: int|
            #[trigger] merge_err_at(w0.registry, s, e, i, j) && spawned.len() == i + 1,
    }
    &&& (mode is Strict ==> forall|i: int|
        0 <= i < spawned.len() ==> #[trigger] spawned[i] == w0.next_id + i && !alive(
            w0,
            spawned[i],
        ))
}

/// Resolve a live target identity for every captured entity, in snapshot
/// order, record it in the working map, and merge the captured components
/// onto the target. Fails fast on the first unregistered component type.
#[verifier::loop_isolation(false)]
#[verifier::rlimit(100)]
pub fn merge_entities(
    w: &mut World,
    s: &RawSnapshot,
    caller: &EntityMap,
    mode: MappingMode,
    fb: &mut EntityMap,
    spawned: &mut Vec<u64>,
) -> (r: Result<(), SaveableError>)
    requires
        wf_world(*old(w)),
        wf_snapshot(*s),
        old(w).next_id + s.entities@.len() < u64::MAX,
        forall|i: int|
            0 <= i < caller.pairs@.len() ==> (#[trigger] caller.pairs@[i]).1 + s.entities@.len()
                < u64::MAX,
        forall|k: u64|
            (#[trigger] em_lookup(old(fb).pairs@, k)) == (if alive(*old(w), k) {
                Some(k)
            } else {
                None::<u64>
            }),
        old(fb).wf(),
        old(spawned)@.len() == 0,
    ensures
        wf_world(*final(w)),
        final(fb).wf(),
        merge_post(
            *old(w),
            *s,
            caller.pairs@,
            mode,
            old(fb).pairs@,
            *final(w),
            final(fb).pairs@,
            final(spawned)@,
            r,
        ),
{
    let ghost w0 = *old(w);
    let ghost fb0 = old(fb).pairs@;
    let n = s.entities.len();
    let mut i: usize = 0;
    while i < n
        invariant
            i <= n,
            n == s.entities@.len(),
            wf_world(*w),
            fb.wf(),
            w.resources@ == w0.resources@,
            w.registry == w0.registry,
            w.default_despawn == w0.default_despawn,
            w.default_mapping == w0.default_mapping,
            w.next_id >= w0.next_id,
            w.next_id + (n - i) <= u64::MAX,
            spawned@.len() == i,
            forall|id: u64|
                !spawned@.contains(id) ==> (#[trigger] entity_of(*w, id)) == entity_of(w0, id),
            forall|id: u64| #[trigger] alive(*w, id) <==> alive(w0, id) || spawned@.contains(id),
            forall|i2: int|
                0 <= i2 < i ==> em_lookup(fb.pairs@, (#[trigger] s.entities@[i2]).entity) == Some(
                    spawned@[i2],
                ),
            forall|k: u64|
                !has_key(s.entities@.take(i as int), k) ==> (#[trigger] em_lookup(fb.pairs@, k))
                    == em_lookup(fb0, k),
            forall|i2: int| 0 <= i2 < i ==> entity_comps_ok(w0.registry, #[trigger] s.entities@[i2]),
            mode is Strict ==> w.next_id == w0.next_id + i,
            mode is Strict ==> forall|i2: int| 0 <= i2 < i ==> spawned@[i2] == w0.next_id + i2,
            mode is Strict ==> forall|i2: int|
                0 <= i2 < i ==> !alive(w0, #[trigger] spawned@[i2]),
            mode is Strict ==> forall|i2: int|
                0 <= i2 < i ==> merged_fresh(*w, #[trigger] spawned@[i2], s.entities@[i2]),
            mode is Simple ==> simple_targets_ok(w0, *s, caller.pairs@, spawned@),
            forall|i2: int, j2: int|
                0 <= i2 < i && 0 <= j2 < s.entities@[i2].components@.len() && !overridden_later(
                    *s,
                    spawned@,
                    i2,
                    s.entities@[i2].components@[j2].name,
                ) ==> match find(
                    components_of(*w, spawned@[i2]),
                    (#[trigger] s.entities@[i2].components@[j2]).name,
                ) {
                    Some(c) => crate::value::dv_eq(c, s.entities@[i2].components@[j2]),
                    None => false,
                },
            forall|id: u64, nm: u64|
                spawned@.contains(id) && name_untouched(*s, spawned@, id, nm) ==> (#[trigger] find(
                    components_of(*w, id),
                    nm,
                )) == (if alive(w0, id) {
                    find(components_of(w0, id), nm)
                } else {
                    None::<DynamicValue>
                }),
        decreases n - i,
    {
        let saved = &s.entities[i];
        let orig = saved.entity;
        let ghost w_iter = *w;
        let ghost spawned_pre = spawned@;
        let target: u64 = match mode {
            MappingMode::Strict => {
                let t = w.spawn_empty();
                proof {
                    assert(components_of(*w, t).len() == 0);
                }
                t
            },
            MappingMode::Simple => {
                match saved.map(caller) {
                    Some(t) => {
                        proof {
                            crate::keyed::lemma_find_some(caller.pairs@, orig);
                            let pr = find(caller.pairs@, orig)->Some_0;
                            let cj = choose|cj: int|
                                0 <= cj < caller.pairs@.len() && caller.pairs@[cj] == pr;
                            assert(caller.pairs@[cj].1 + s.entities@.len() < u64::MAX);
                            assert(t == pr.1);
                        }
                        let ti = w.get_or_create(t);
                        proof {
                            if !alive(w_iter, t) {
                                assert(w.entities@.drop_last() == w_iter.entities@);
                                if (ti as int) < w.entities@.len() - 1 {
                                    assert(w.entities@.drop_last()[ti as int] == w.entities@[
                                        ti as int]);
                                    assert(w_iter.entities@[ti as int].key() == t);
                                    assert(false);
                                }
                                assert(w.entities@[ti as int] == w.entities@.last());
                                assert(components_of(*w, t).len() == 0);
                            }
                        }
                        t
                    },
                    None => {
                        match fb.get(orig) {
                            Some(t2) => {
                                if w.is_alive(t2) {
                                    t2
                                } else {
                                    let t3 = w.spawn_empty();
                                    proof {
                                        assert(components_of(*w, t3).len() == 0);
                                    }
                                    t3
                                }
                            },
                            None => {
                                let t3 = w.spawn_empty();
                                proof {
                                    assert(components_of(*w, t3).len() == 0);
                                }
                                t3
                            },
                        }
                    },
                }
            },
        };
        fb.insert(orig, target);
        spawned.push(target);
        proof {
            assert(alive(*w, target));
            assert forall|id: u64| #[trigger] spawned@.contains(id) implies spawned_pre.contains(
                id,
            ) || id == target by {
                let j2 = choose|j2: int| 0 <= j2 < spawned@.len() && spawned@[j2] == id;
                if j2 < spawned@.len() - 1 {
                    assert(spawned_pre[j2] == id);
                }
            }
            assert forall|id: u64| spawned_pre.contains(id) implies spawned@.contains(id) by {
                let j2 = choose|j2: int| 0 <= j2 < spawned_pre.len() && spawned_pre[j2] == id;
                assert(spawned@[j2] == id);
            }
            assert(spawned@[i as int] == target);
            assert(spawned@.contains(target));
            assert(spawned@.drop_last() =~= spawned_pre);
            assert(s.entities@.take(i + 1).drop_last() =~= s.entities@.take(i as int));
            assert(s.entities@.take(i + 1)[i as int] == s.entities@[i as int]);
            assert(has_key(s.entities@.take(i + 1), orig));
            assert forall|k: u64|
                !has_key(s.entities@.take(i + 1), k) implies (#[trigger] em_lookup(fb.pairs@, k))
                == em_lookup(fb0, k) by {
                assert(k != orig);
                assert(!has_key(s.entities@.take(i as int), k)) by {
                    if has_key(s.entities@.take(i as int), k) {
                        let j2 = choose|j2: int|
                            0 <= j2 < i && (#[trigger] s.entities@.take(i as int)[j2]).key() == k;
                        assert(s.entities@.take(i + 1)[j2] == s.entities@.take(i as int)[j2]);
                        assert(s.entities@.take(i + 1)[j2].key() == k);
                    }
                }
            }
            assert forall|i2: int|
                0 <= i2 < i + 1 implies em_lookup(
                fb.pairs@,
                (#[trigger] s.entities@[i2]).entity,
            ) == Some(spawned@[i2]) by {
                if i2 < i {
                    assert(s.entities@[i2].key() != s.entities@[i as int].key());
                }
            }
        }
        let ghost w_res = *w;
        proof {
            assert forall|id: u64|
                !spawned@.contains(id) implies (#[trigger] entity_of(w_res, id)) == entity_of(
                w0,
                id,
            ) by {
                assert(id != target);
                assert(spawned@.drop_last() =~= spawned_pre);
                assert(!spawned_pre.contains(id));
                assert(entity_of(w_res, id) == entity_of(w_iter, id));
                assert(entity_of(w_iter, id) == entity_of(w0, id));
            }
            assert forall|id: u64| true implies ((#[trigger] alive(w_res, id)) <==> alive(w0, id)
                || spawned@.contains(id)) by {
                assert(spawned@.drop_last() =~= spawned_pre);
                assert(alive(w_res, id) <==> alive(w_iter, id) || id == target);
                assert(alive(w_iter, id) <==> alive(w0, id) || spawned_pre.contains(id));
            }
            assert forall|k: u64| k != target implies (#[trigger] entity_of(w_res, k))
                == entity_of(w_iter, k) by {}
            assert(alive(w_iter, target) ==> entity_of(w_res, target) == entity_of(
                w_iter,
                target,
            ));
            assert(!alive(w_iter, target) ==> components_of(w_res, target).len() == 0);
            if mode is Strict {
                assert(spawned@[i as int] == w0.next_id + i);
                assert(!alive(w0, target));
            }
        }
        let cn = saved.components.len();
        let mut j: usize = 0;
        while j < cn
            invariant
                j <= cn,
                cn == saved.components@.len(),
                i < n,
                wf_world(*w),
                alive(*w, target),
                w.resources@ == w0.resources@,
                w.registry == w0.registry,
                w.default_despawn == w0.default_despawn,
                w.default_mapping == w0.default_mapping,
                w.next_id + (n - i - 1) <= u64::MAX,
                w.next_id >= w0.next_id,
                mode is Strict ==> w.next_id == w0.next_id + i + 1,
                forall|k: u64| k != target ==> (#[trigger] entity_of(*w, k)) == entity_of(
                    w_res,
                    k,
                ),
                forall|id: u64|
                    !spawned@.contains(id) ==> (#[trigger] entity_of(*w, id)) == entity_of(
                        w0,
                        id,
                    ),
                forall|id: u64| #[trigger] alive(*w, id) <==> alive(w0, id) || spawned@.contains(
                    id,
                ),
                forall|j2: int|
                    0 <= j2 < j ==> component_err(w0.registry, #[trigger] saved.components@[j2])
                        is None,
                mode is Strict ==> crate::value::dvs_eq(
                    components_of(*w, target),
                    saved.components@.take(j as int),
                ),
                forall|j2: int|
                    0 <= j2 < j ==> match find(
                        components_of(*w, target),
                        (#[trigger] saved.components@[j2]).name,
                    ) {
                        Some(c) => crate::value::dv_eq(c, saved.components@[j2]),
                        None => false,
                    },
                forall|nm: u64|
                    !has_key(saved.components@.take(j as int), nm) ==> (#[trigger] find(
                        components_of(*w, target),
                        nm,
                    )) == find(components_of(w_res, target), nm),
            decreases cn - j,
        {
            let c = &saved.components[j];
            match w.registry.lookup(c.name) {
                None => {
                    proof {
                        assert(merge_err_at(
                            w0.registry,
                            *s,
                            SaveableError::UnregisteredType { name: c.name },
                            i as int,
                            j as int,
                        ));
                    }
                    return Err(SaveableError::UnregisteredType { name: c.name });
                },
                Some(t) => {
                    if !t.component_cap {
                        proof {
                            assert(merge_err_at(
                                w0.registry,
                                *s,
                                SaveableError::UnregisteredComponent { name: c.name },
                                i as int,
                                j as int,
                            ));
                        }
                        return Err(SaveableError::UnregisteredComponent { name: c.name });
                    }
                    let cc = c.clone_value();
                    proof {
                        if mode is Strict {
                            assert forall|m2: int|
                                0 <= m2 < j implies (#[trigger] components_of(
                                *w,
                                target,
                            )[m2]).name == saved.components@[m2].name by {
                                assert(crate::value::dv_eq(
                                    components_of(*w, target)[m2],
                                    saved.components@.take(j as int)[m2],
                                ));
                            }
                            if has_key(components_of(*w, target), cc.name) {
                                let m2 = choose|m2: int|
                                    0 <= m2 < components_of(*w, target).len()
                                        && components_of(*w, target)[m2].key() == cc.name;
                                assert(saved.components@[m2].key() == saved.components@[
                                    j as int].key());
                                assert(false);
                            }
                        }
                    }
                    let ghost w_prev = *w;
                    w.merge_component(target, cc);
                    proof {
                        if mode is Strict {
                            assert(saved.components@.take(j + 1) =~= saved.components@.take(
                                j as int,
                            ).push(saved.components@[j as int]));
                        }
                        assert(unique_keys(s.entities@[i as int].components@));
                        assert(saved.components@.take(j + 1).drop_last() =~= saved.components@.take(
                            j as int,
                        ));
                        assert(saved.components@.take(j + 1)[j as int] == saved.components@[
                            j as int]);
                        assert(has_key(saved.components@.take(j + 1), cc.name));
                        assert forall|j2: int|
                            0 <= j2 < j + 1 implies (match find(
                            components_of(*w, target),
                            (#[trigger] saved.components@[j2]).name,
                        ) {
                            Some(c2) => crate::value::dv_eq(c2, saved.components@[j2]),
                            None => false,
                        }) by {
                            if j2 < j {
                                assert(saved.components@[j2].key() != saved.components@[
                                    j as int].key());
                                assert(find(components_of(*w, target), saved.components@[
                                    j2].name) == find(components_of(w_prev, target),
                                    saved.components@[j2].name));
                            } else {
                                assert(find(components_of(*w, target), cc.name) == Some(cc));
                            }
                        }
                        assert forall|nm: u64|
                            !has_key(saved.components@.take(j + 1), nm) implies (#[trigger] find(
                            components_of(*w, target),
                            nm,
                        )) == find(components_of(w_res, target), nm) by {
                            assert(nm != cc.name);
                            assert(!has_key(saved.components@.take(j as int), nm)) by {
                                if has_key(saved.components@.take(j as int), nm) {
                                    let j3 = choose|j3: int|
                                        0 <= j3 < j && (#[trigger] saved.components@.take(
                                            j as int,
                                        )[j3]).key() == nm;
                                    assert(saved.components@.take(j + 1)[j3]
                                        == saved.components@.take(j as int)[j3]);
                                    assert(saved.components@.take(j + 1)[j3].key() == nm);
                                }
                            }
                            assert(find(components_of(*w, target), nm) == find(
                                components_of(w_prev, target),
                                nm,
                            ));
                        }
                    }
                },
            }
            j = j + 1;
        }
        proof {
            assert(entity_comps_ok(w0.registry, s.entities@[i as int]));
            if mode is Strict {
                assert(saved.components@.take(cn as int) =~= saved.components@);
                crate::keyed::lemma_find_some(w.entities@, target);
                assert(merged_fresh(*w, target, s.entities@[i as int]));
            }
            if mode is Strict {
                assert forall|i2: int|
                    0 <= i2 < i + 1 implies merged_fresh(
                    *w,
                    #[trigger] spawned@[i2],
                    s.entities@[i2],
                ) by {
                    if i2 < i {
                        assert(spawned@[i2] == w0.next_id + i2);
                        assert(spawned@[i2] != target);
                        assert(entity_of(*w, spawned@[i2]) == entity_of(w_res, spawned@[i2]));
                        assert(entity_of(w_res, spawned@[i2]) == entity_of(
                            w_iter,
                            spawned@[i2],
                        ));
                        assert(merged_fresh(w_iter, spawned@[i2], s.entities@[i2]));
                    }
                }
            }
            assert(saved.components@.take(cn as int) =~= saved.components@);
            assert forall|i2: int, j2: int|
                0 <= i2 < i + 1 && 0 <= j2 < s.entities@[i2].components@.len()
                    && !overridden_later(
                    *s,
                    spawned@,
                    i2,
                    s.entities@[i2].components@[j2].name,
                ) implies (match find(
                components_of(*w, spawned@[i2]),
                (#[trigger] s.entities@[i2].components@[j2]).name,
            ) {
                Some(c2) => crate::value::dv_eq(c2, s.entities@[i2].components@[j2]),
                None => false,
            }) by {
                let nm = s.entities@[i2].components@[j2].name;
                if i2 == i {
                    assert(saved.components@[j2].name == nm);
                } else {
                    assert(!overridden_later(*s, spawned_pre, i2, nm)) by {
                        if overridden_later(*s, spawned_pre, i2, nm) {
                            let i3 = choose|i3: int|
                                i2 < i3 < spawned_pre.len() && #[trigger] spawned_pre[i3]
                                    == spawned_pre[i2] && has_key(
                                    s.entities@[i3].components@,
                                    nm,
                                );
                            assert(spawned@[i3] == spawned@[i2]);
                            assert(overridden_later(*s, spawned@, i2, nm));
                        }
                    }
                    if spawned@[i2] == target {
                        assert(!has_key(saved.components@, nm)) by {
                            if has_key(saved.components@, nm) {
                                assert(spawned@[i as int] == spawned@[i2]);
                                assert(overridden_later(*s, spawned@, i2, nm));
                            }
                        }
                        assert(!has_key(saved.components@.take(cn as int), nm));
                        assert(find(components_of(*w, target), nm) == find(
                            components_of(w_res, target),
                            nm,
                        ));
                        assert(spawned_pre.contains(spawned_pre[i2]));
                        assert(alive(w_iter, target));
                        assert(entity_of(w_res, target) == entity_of(w_iter, target));
                    } else {
                        assert(entity_of(*w, spawned@[i2]) == entity_of(w_res, spawned@[i2]));
                        assert(entity_of(w_res, spawned@[i2]) == entity_of(
                            w_iter,
                            spawned@[i2],
                        ));
                    }
                }
            }
            assert forall|id: u64, nm: u64|
                spawned@.contains(id) && name_untouched(*s, spawned@, id, nm) implies (
            #[trigger] find(components_of(*w, id), nm)) == (if alive(w0, id) {
                find(components_of(w0, id), nm)
            } else {
                None::<DynamicValue>
            }) by {
                if id == target {
                    assert(spawned@[i as int] == id);
                    assert(!has_key(saved.components@, nm));
                    assert(!has_key(saved.components@.take(cn as int), nm));
                    assert(find(components_of(*w, target), nm) == find(
                        components_of(w_res, target),
                        nm,
                    ));
                    if alive(w_iter, target) {
                        assert(entity_of(w_res, target) == entity_of(w_iter, target));
                        if spawned_pre.contains(target) {
                            assert(name_untouched(*s, spawned_pre, target, nm)) by {
                                assert forall|i3: int|
                                    0 <= i3 < spawned_pre.len() && #[trigger] spawned_pre[i3]
                                        == target implies !has_key(
                                    s.entities@[i3].components@,
                                    nm,
                                ) by {
                                    assert(spawned@[i3] == target);
                                }
                            }
                            assert(alive(w_iter, target) <==> alive(w0, target)
                                || spawned_pre.contains(target));
                        } else {
                            assert(entity_of(w_iter, target) == entity_of(w0, target));
                            assert(alive(w0, target));
                        }
                    } else {
                        assert(components_of(w_res, target).len() == 0);
                        assert(find(components_of(w_res, target), nm) is None);
                        assert(!alive(w0, target));
                    }
                } else {
                    assert(spawned_pre.contains(id)) by {
                        let i3 = choose|i3: int|
                            0 <= i3 < spawned@.len() && spawned@[i3] == id;
                        assert(spawned_pre[i3] == id);
                    }
                    assert(name_untouched(*s, spawned_pre, id, nm)) by {
                        assert forall|i3: int|
                            0 <= i3 < spawned_pre.len() && #[trigger] spawned_pre[i3] == id
                            implies !has_key(s.entities@[i3].components@, nm) by {
                            assert(spawned@[i3] == id);
                        }
                    }
                    assert(entity_of(*w, id) == entity_of(w_res, id));
                    assert(entity_of(w_res, id) == entity_of(w_iter, id));
                }
            }
        }
        i = i + 1;
    }
    proof {
        assert(s.entities@.take(n as int) =~= s.entities@);
    }
    Ok(())
}

/// Whether a registered type exposes the reference-remapping capability.
pub open spec fn type_remaps(reg: Registry, name: u64) -> bool {
    match reg_lookup(reg, name) {
        Some(t) => t.map_entities_cap,
        None => false,
    }
}

/// Every reference inside a value whose type remaps references has an
/// entry in the working map.
pub open spec fn world_mappable(w: World, m: Seq<(u64, u64)>) -> bool {
    &&& forall|i: int, j: int|
        0 <= i < w.entities@.len() && 0 <= j < w.entities@[i].components@.len() && type_remaps(
            w.registry,
            (#[trigger] w.entities@[i].components@[j]).name,
        ) ==> fields_mappable(w.entities@[i].components@[j].fields@, m)
    &&& forall|i: int|
        0 <= i < w.resources@.len() && type_remaps(w.registry, (#[trigger] w.resources@[i]).name)
            ==> fields_mappable(w.resources@[i].fields@, m)
}

/// The relation between a stored value before and after the global remap:
/// rewritten when its type remaps references, untouched otherwise.
pub open spec fn value_remapped(reg: Registry, m: Seq<(u64, u64)>, a: DynamicValue, b: DynamicValue) -> bool {
    b.name == a.name && b.fields@ == (if type_remaps(reg, a.name) {
        remap_fields(a.fields@, m)
    } else {
        a.fields@
    })
}

/// A weaker relation for the failure case: each value is either untouched
/// or already rewritten.
pub open spec fn value_part_remapped(reg: Registry, m: Seq<(u64, u64)>, a: DynamicValue, b: DynamicValue) -> bool {
    b.name == a.name && (b.fields@ == a.fields@ || b.fields@ == remap_fields(a.fields@, m))
}

/// What the global reference remap does: on success every stored value of
/// a remapping type points through the working map; on failure the error
/// carries an identity with no map entry and each value is untouched or
/// already rewritten.
pub open spec fn remap_post(w0: World, m: Seq<(u64, u64)>, w1: World, r: Result<
    (),
    SaveableError,
>) -> bool {
    &&& w1.registry == w0.registry
    &&& w1.next_id == w0.next_id
    &&& w1.default_despawn == w0.default_despawn
    &&& w1.default_mapping == w0.default_mapping
    &&& w1.entities@.len() == w0.entities@.len()
    &&& forall|i: int|
        0 <= i < w1.entities@.len() ==> (#[trigger] w1.entities@[i]).id == w0.entities@[i].id
            && w1.entities@[i].components@.len() == w0.entities@[i].components@.len()
    &&& w1.resources@.len() == w0.resources@.len()
    &&& match r {
        Ok(()) => {
            &&& world_mappable(w0, m)
            &&& forall|i: int, j: int|
                0 <= i < w0.entities@.len() && 0 <= j < w0.entities@[i].components@.len()
                    ==> value_remapped(
                    w0.registry,
                    m,
                    (#[trigger] w0.entities@[i].components@[j]),
                    w1.entities@[i].components@[j],
                )
            &&& forall|i: int|
                0 <= i < w0.resources@.len() ==> value_remapped(
                    w0.registry,
                    m,
                    (#[trigger] w0.resources@[i]),
                    w1.resources@[i],
                )
        },
        Err(e) => {
            &&& !world_mappable(w0, m)
            &&& e matches SaveableError::MapEntitiesError { entity } && em_lookup(m, entity)
                is None
            &&& forall|i: int, j: int|
                0 <= i < w0.entities@.len() && 0 <= j < w0.entities@[i].components@.len()
                    ==> value_part_remapped(
                    w0.registry,
                    m,
                    (#[trigger] w0.entities@[i].components@[j]),
                    w1.entities@[i].components@[j],
                )
            &&& forall|i: int|
                0 <= i < w0.resources@.len() ==> value_part_remapped(
                    w0.registry,
                    m,
                    (#[trigger] w0.resources@[i]),
                    w1.resources@[i],
                )
        },
    }
}

/// Remapping rewrites fields only, so well-formedness carries over.
proof fn remap_preserves_wf(w0: World, m: Seq<(u64, u64)>, w1: World)
    requires
        wf_world(w0),
        w1.next_id == w0.next_id,
        w1.registry == w0.registry,
        w1.entities@.len() == w0.entities@.len(),
        forall|i: int|
            0 <= i < w1.entities@.len() ==> (#[trigger] w1.entities@[i]).id == w0.entities@[i].id
                && w1.entities@[i].components@.len() == w0.entities@[i].components@.len(),
        forall|i: int, j: int|
            0 <= i < w0.entities@.len() && 0 <= j < w0.entities@[i].components@.len()
                ==> value_part_remapped(
                w0.registry,
                m,
                (#[trigger] w0.entities@[i].components@[j]),
                w1.entities@[i].components@[j],
            ),
        w1.resources@.len() == w0.resources@.len(),
        forall|i: int|
            0 <= i < w0.resources@.len() ==> value_part_remapped(
                w0.registry,
                m,
                (#[trigger] w0.resources@[i]),
                w1.resources@[i],
            ),
    ensures
        wf_world(w1),
{
    assert forall|i2: int|
        0 <= i2 < w1.entities@.len() implies crate::world::wf_record(#[trigger] w1.entities@[i2])
        && w1.entities@[i2].id < w1.next_id by {
        assert(crate::world::wf_record(w0.entities@[i2]));
        assert(w0.entities@[i2].id < w0.next_id);
        assert forall|a: int, b: int|
            0 <= a < b < w1.entities@[i2].components@.len() implies (#[trigger] w1.entities@[
            i2].components@[a]).key() != (#[trigger] w1.entities@[i2].components@[b]).key() by {
            assert(value_part_remapped(
                w0.registry,
                m,
                w0.entities@[i2].components@[a],
                w1.entities@[i2].components@[a],
            ));
            assert(value_part_remapped(
                w0.registry,
                m,
                w0.entities@[i2].components@[b],
                w1.entities@[i2].components@[b],
            ));
            assert(w0.entities@[i2].components@[a].key() != w0.entities@[i2].components@[b].key());
        }
    }
    assert forall|a: int, b: int|
        0 <= a < b < w1.entities@.len() implies (#[trigger] w1.entities@[a]).key()
        != (#[trigger] w1.entities@[b]).key() by {
        assert(w0.entities@[a].key() != w0.entities@[b].key());
    }
    assert forall|a: int, b: int|
        0 <= a < b < w1.resources@.len() implies (#[trigger] w1.resources@[a]).key()
        != (#[trigger] w1.resources@[b]).key() by {
        assert(value_part_remapped(w0.registry, m, w0.resources@[a], w1.resources@[a]));
        assert(value_part_remapped(w0.registry, m, w0.resources@[b], w1.resources@[b]));
        assert(w0.resources@[a].key() != w0.resources@[b].key());
    }
}

/// Put the rebuilt entity prefix back in front of whatever suffix is
/// still in the world.
fn finish_entities(w: &mut World, done: Vec<EntityRecord>)
    ensures
        final(w).entities@ == done@ + old(w).entities@,
        final(w).resources@ == old(w).resources@,
        final(w).registry == old(w).registry,
        final(w).next_id == old(w).next_id,
        final(w).default_despawn == old(w).default_despawn,
        final(w).default_mapping == old(w).default_mapping,
{
    let mut done = done;
    done.append(&mut w.entities);
    w.entities = done;
}

/// Replace the resource list.
fn finish_resources(w: &mut World, rdone: Vec<DynamicValue>)
    ensures
        final(w).resources@ == rdone@,
        final(w).entities@ == old(w).entities@,
        final(w).registry == old(w).registry,
        final(w).next_id == old(w).next_id,
        final(w).default_despawn == old(w).default_despawn,
        final(w).default_mapping == old(w).default_mapping,
{
    w.resources = rdone;
}

/// Rewrite, once against the whole world, every component and resource
/// whose type remaps references, using the working map, so that references
/// captured before full resolution point at the correct live identities.
/// A reciprocal child-list component is rewritten only when its own type
/// registers the remapping capability; one that does not may keep stale
/// references, a documented gap.
#[verifier::loop_isolation(false)]
pub fn remap_world(w: &mut World, m: &EntityMap) -> (r: Result<(), SaveableError>)
    requires
        wf_world(*old(w)),
    ensures
        wf_world(*final(w)),
        remap_post(*old(w), m.pairs@, *final(w), r),
{
    let ghost w0 = *w;
    let n = w.entities.len();
    let mut done: Vec<EntityRecord> = Vec::new();
    let mut i: usize = 0;
    while i < n
        invariant
            i <= n,
            n == w0.entities@.len(),
            w.entities@ == w0.entities@.skip(i as int),
            w.resources@ == w0.resources@,
            w.registry == w0.registry,
            w.next_id == w0.next_id,
            w.default_despawn == w0.default_despawn,
            w.default_mapping == w0.default_mapping,
            done@.len() == i,
            forall|i2: int|
                0 <= i2 < i ==> (#[trigger] done@[i2]).id == w0.entities@[i2].id
                    && done@[i2].components@.len() == w0.entities@[i2].components@.len(),
            forall|i2: int, j: int|
                0 <= i2 < i && 0 <= j < w0.entities@[i2].components@.len() ==> value_remapped(
                    w0.registry,
                    m.pairs@,
                    (#[trigger] w0.entities@[i2].components@[j]),
                    done@[i2].components@[j],
                ),
            forall|i2: int, j: int|
                0 <= i2 < i && 0 <= j < w0.entities@[i2].components@.len() && type_remaps(
                    w0.registry,
                    (#[trigger] w0.entities@[i2].components@[j]).name,
                ) ==> fields_mappable(w0.entities@[i2].components@[j].fields@, m.pairs@),
        decreases n - i,
    {
        proof {
            assert(w.entities@[0] == w0.entities@[i as int]);
            assert(w.entities@.skip(1) =~= w0.entities@.skip(i + 1));
        }
        let mut rec = record_out(&mut w.entities);
        let ghost comps0 = rec.components@;
        let ghost w_mid = *w;
        let cn = rec.components.len();
        let mut out: Vec<DynamicValue> = Vec::new();
        let mut j: usize = 0;
        while j < cn
            invariant
                j <= cn,
                cn == comps0.len(),
                *w == w_mid,
                rec.id == w0.entities@[i as int].id,
                rec.components@ == comps0.skip(j as int),
                out@.len() == j,
                forall|j2: int|
                    0 <= j2 < j ==> value_remapped(
                        w0.registry,
                        m.pairs@,
                        (#[trigger] comps0[j2]),
                        out@[j2],
                    ),
                forall|j2: int|
                    0 <= j2 < j && type_remaps(w0.registry, (#[trigger] comps0[j2]).name)
                        ==> fields_mappable(comps0[j2].fields@, m.pairs@),
            decreases cn - j,
        {
            proof {
                assert(rec.components@[0] == comps0[j as int]);
                assert(rec.components@.skip(1) =~= comps0.skip(j + 1));
            }
            let mut c = rec.components.remove(0);
            let remaps = match w.registry.lookup(c.name) {
                Some(t) => t.map_entities_cap,
                None => false,
            };
            if remaps {
                match remap_value(&mut c, m) {
                    Ok(()) => {},
                    Err(e) => {
                        proof {
                            assert(!fields_mappable(comps0[j as int].fields@, m.pairs@));
                            assert(w0.entities@[i as int].components@ == comps0);
                            assert(!world_mappable(w0, m.pairs@));
                        }
                        out.push(c);
                        while rec.components.len() > 0
                            invariant
                                rec.id == w0.entities@[i as int].id,
                                out@.len() + rec.components@.len() == comps0.len(),
                                forall|j2: int|
                                    0 <= j2 < out@.len() ==> value_part_remapped(
                                        w0.registry,
                                        m.pairs@,
                                        (#[trigger] comps0[j2]),
                                        out@[j2],
                                    ),
                                rec.components@ == comps0.skip(out@.len() as int),
                            decreases rec.components@.len(),
                        {
                            proof {
                                assert(rec.components@[0] == comps0[out@.len() as int]);
                                assert(rec.components@.skip(1) =~= comps0.skip(
                                    out@.len() as int + 1,
                                ));
                            }
                            let c2 = rec.components.remove(0);
                            out.push(c2);
                        }
                        let rid = rec.id;
                        let rec2 = EntityRecord { id: rid, components: out };
                        w.entities.insert(0, rec2);
                        finish_entities(w, done);
                        proof {
                            assert forall|i2: int, j2: int|
                                0 <= i2 < w0.entities@.len() && 0 <= j2 < w0.entities@[
                                i2].components@.len() implies value_part_remapped(
                                w0.registry,
                                m.pairs@,
                                (#[trigger] w0.entities@[i2].components@[j2]),
                                w.entities@[i2].components@[j2],
                            ) by {
                                if i2 < i {
                                    assert(w.entities@[i2] == done@[i2]);
                                    assert(value_remapped(
                                        w0.registry,
                                        m.pairs@,
                                        w0.entities@[i2].components@[j2],
                                        done@[i2].components@[j2],
                                    ));
                                } else if i2 > i {
                                    assert(w.entities@[i2] == w0.entities@[i2]);
                                }
                            }
                            assert forall|i2: int|
                                0 <= i2 < w.entities@.len() implies (#[trigger] w.entities@[
                                i2]).id == w0.entities@[i2].id && w.entities@[i2].components@.len()
                                == w0.entities@[i2].components@.len() by {
                                if i2 < i {
                                    assert(w.entities@[i2] == done@[i2]);
                                } else if i2 > i {
                                    assert(w.entities@[i2] == w0.entities@[i2]);
                                }
                            }
                            assert forall|i2: int|
                                0 <= i2 < w0.resources@.len() implies value_part_remapped(
                                w0.registry,
                                m.pairs@,
                                (#[trigger] w0.resources@[i2]),
                                w.resources@[i2],
                            ) by {}
                            remap_preserves_wf(w0, m.pairs@, *w);
                        }
                        return Err(e);
                    },
                }
            }
            out.push(c);
            proof {
                assert(value_remapped(w0.registry, m.pairs@, comps0[j as int], out@[j as int]));
            }
            j = j + 1;
        }
        proof {
            assert(comps0.skip(cn as int) =~= Seq::<DynamicValue>::empty());
        }
        let rid = rec.id;
        done.push(EntityRecord { id: rid, components: out });
        i = i + 1;
    }
    proof {
        assert(w0.entities@.skip(n as int) =~= Seq::<EntityRecord>::empty());
        assert(w.entities@ =~= Seq::<EntityRecord>::empty());
    }
    finish_entities(w, done);
    proof {
        assert(w.entities@ =~= done@);
    }
    let rn = w.resources.len();
    let ghost res0 = w.resources@;
    let ghost wmid_entities = w.entities@;
    let mut rdone: Vec<DynamicValue> = Vec::new();
    let mut k: usize = 0;
    while k < rn
        invariant
            k <= rn,
            rn == res0.len(),
            res0 == w0.resources@,
            w.resources@ == res0.skip(k as int),
            w.entities@ == wmid_entities,
            w.registry == w0.registry,
            w.next_id == w0.next_id,
            w.default_despawn == w0.default_despawn,
            w.default_mapping == w0.default_mapping,
            w.entities@.len() == w0.entities@.len(),
            forall|i2: int|
                0 <= i2 < w0.entities@.len() ==> (#[trigger] w.entities@[i2]).id == w0.entities@[
                    i2].id && w.entities@[i2].components@.len() == w0.entities@[
                    i2].components@.len(),
            forall|i2: int, j: int|
                0 <= i2 < w0.entities@.len() && 0 <= j < w0.entities@[i2].components@.len()
                    ==> value_remapped(
                    w0.registry,
                    m.pairs@,
                    (#[trigger] w0.entities@[i2].components@[j]),
                    w.entities@[i2].components@[j],
                ),
            forall|i2: int, j: int|
                0 <= i2 < w0.entities@.len() && 0 <= j < w0.entities@[i2].components@.len()
                    && type_remaps(w0.registry, (#[trigger] w0.entities@[i2].components@[j]).name)
                    ==> fields_mappable(w0.entities@[i2].components@[j].fields@, m.pairs@),
            rdone@.len() == k,
            forall|k2: int|
                0 <= k2 < k ==> value_remapped(
                    w0.registry,
                    m.pairs@,
                    (#[trigger] res0[k2]),
                    rdone@[k2],
                ),
            forall|k2: int|
                0 <= k2 < k && type_remaps(w0.registry, (#[trigger] res0[k2]).name)
                    ==> fields_mappable(res0[k2].fields@, m.pairs@),
        decreases rn - k,
    {
        proof {
            assert(w.resources@[0] == res0[k as int]);
            assert(w.resources@.skip(1) =~= res0.skip(k + 1));
        }
        let mut c = w.resources.remove(0);
        let remaps = match w.registry.lookup(c.name) {
            Some(t) => t.map_entities_cap,
            None => false,
        };
        if remaps {
            match remap_value(&mut c, m) {
                Ok(()) => {},
                Err(e) => {
                    proof {
                        assert(!fields_mappable(res0[k as int].fields@, m.pairs@));
                        assert(!world_mappable(w0, m.pairs@));
                    }
                    rdone.push(c);
                    while w.resources.len() > 0
                        invariant
                            rdone@.len() + w.resources@.len() == res0.len(),
                            forall|k2: int|
                                0 <= k2 < rdone@.len() ==> value_part_remapped(
                                    w0.registry,
                                    m.pairs@,
                                    (#[trigger] res0[k2]),
                                    rdone@[k2],
                                ),
                            w.resources@ == res0.skip(rdone@.len() as int),
                            w.entities@ == wmid_entities,
                            w.registry == w0.registry,
                            w.next_id == w0.next_id,
                            w.default_despawn == w0.default_despawn,
                            w.default_mapping == w0.default_mapping,
                        decreases w.resources@.len(),
                    {
                        proof {
                            assert(w.resources@[0] == res0[rdone@.len() as int]);
                            assert(w.resources@.skip(1) =~= res0.skip(rdone@.len() as int + 1));
                        }
                        let c2 = w.resources.remove(0);
                        rdone.push(c2);
                    }
                    finish_resources(w, rdone);
                    proof {
                        assert forall|i2: int, j2: int|
                            0 <= i2 < w0.entities@.len() && 0 <= j2 < w0.entities@[
                            i2].components@.len() implies value_part_remapped(
                            w0.registry,
                            m.pairs@,
                            (#[trigger] w0.entities@[i2].components@[j2]),
                            w.entities@[i2].components@[j2],
                        ) by {
                            assert(value_remapped(
                                w0.registry,
                                m.pairs@,
                                w0.entities@[i2].components@[j2],
                                w.entities@[i2].components@[j2],
                            ));
                        }
                        remap_preserves_wf(w0, m.pairs@, *w);
                    }
                    return Err(e);
                },
            }
        }
        rdone.push(c);
        proof {
            assert(value_remapped(w0.registry, m.pairs@, res0[k as int], rdone@[k as int]));
        }
        k = k + 1;
    }
    proof {
        assert(res0.skip(rn as int) =~= Seq::<DynamicValue>::empty());
        assert(w.resources@ =~= Seq::<DynamicValue>::empty());
    }
    finish_resources(w, rdone);
    proof {
        assert forall|i2: int, j2: int|
            0 <= i2 < w0.entities@.len() && 0 <= j2 < w0.entities@[i2].components@.len()
            implies value_part_remapped(
            w0.registry,
            m.pairs@,
            (#[trigger] w0.entities@[i2].components@[j2]),
            w.entities@[i2].components@[j2],
        ) by {
            assert(value_remapped(
                w0.registry,
                m.pairs@,
                w0.entities@[i2].components@[j2],
                w.entities@[i2].components@[j2],
            ));
        }
        assert forall|i2: int|
            0 <= i2 < w0.resources@.len() implies value_part_remapped(
            w0.registry,
            m.pairs@,
            (#[trigger] w0.resources@[i2]),
            w.resources@[i2],
        ) by {
            assert(value_remapped(w0.registry, m.pairs@, res0[i2], w.resources@[i2]));
        }
        remap_preserves_wf(w0, m.pairs@, *w);
    }
    Ok(())
}

/// The parent identity an entity's hierarchy-link component carries: the
/// first field of the component stored under the registry's parent-link
/// type name, when it is a reference.
pub open spec fn parent_link(comps: Seq<DynamicValue>, pname: u64) -> Option<u64> {
    match find(comps, pname) {
        Some(c) => if c.fields@.len() > 0 && c.fields@[0] is EntityRef {
            Some(c.fields@[0]->EntityRef_0)
        } else {
            None
        },
        None => None,
    }
}

/// What the hierarchy fix-up does: every resolved entity that carries a
/// parent link has that link re-established against the already-remapped
/// parent identity, as the component's single reference field; everything
/// else is untouched.
pub open spec fn hierarchy_post(w0: World, spawned: Seq<u64>, w1: World) -> bool {
    &&& w1.resources@ == w0.resources@
    &&& w1.registry == w0.registry
    &&& w1.next_id == w0.next_id
    &&& w1.default_despawn == w0.default_despawn
    &&& w1.default_mapping == w0.default_mapping
    &&& forall|id: u64| #[trigger] alive(w1, id) <==> alive(w0, id)
    &&& forall|id: u64|
        !spawned.contains(id) ==> (#[trigger] entity_of(w1, id)) == entity_of(w0, id)
    &&& forall|id: u64|
        #[trigger] spawned.contains(id) && alive(w0, id) ==> (match parent_link(
            components_of(w0, id),
            w0.registry.parent_name,
        ) {
            Some(p) => (match find(components_of(w1, id), w0.registry.parent_name) {
                Some(c) => c.name == w0.registry.parent_name && c.fields@.len() == 1
                    && c.fields@[0] == Field::EntityRef(p),
                None => false,
            }) && (forall|n2: u64|
                n2 != w0.registry.parent_name ==> find(components_of(w1, id), n2) == find(
                    components_of(w0, id),
                    n2,
                )),
            None => entity_of(w1, id) == entity_of(w0, id),
        })
}

/// Re-establish the parent link of every resolved entity that carries one,
/// against the resolved, post-remap parent identity. The relinking
/// operations are collected into one deferred batch and applied after the
/// scan, so no structural mutation happens while iterating.
#[verifier::loop_isolation(false)]
pub fn fix_hierarchy(w: &mut World, spawned: &Vec<u64>)
    requires
        wf_world(*old(w)),
    ensures
        wf_world(*final(w)),
        hierarchy_post(*old(w), spawned@, *final(w)),
{
    let ghost w0 = *w;
    let pname = w.registry.parent_name;
    let mut batch: Vec<(u64, u64)> = Vec::new();
    let n = spawned.len();
    let mut i: usize = 0;
    while i < n
        invariant
            i <= n,
            n == spawned@.len(),
            forall|m: int|
                0 <= m < batch@.len() ==> alive(w0, (#[trigger] batch@[m]).0) && spawned@.contains(
                    batch@[m].0,
                ) && parent_link(components_of(w0, batch@[m].0), pname) == Some(batch@[m].1),
            forall|i2: int|
                0 <= i2 < i && alive(w0, #[trigger] spawned@[i2]) && parent_link(
                    components_of(w0, spawned@[i2]),
                    pname,
                ) is Some ==> batch@.contains(
                    (spawned@[i2], parent_link(components_of(w0, spawned@[i2]), pname)->Some_0),
                ),
        decreases n - i,
    {
        let e = spawned[i];
        proof {
            assert(spawned@.contains(spawned@[i as int]));
        }
        match find_index(&w.entities, e) {
            Some(wi) => {
                proof {
                    lemma_find_at(w.entities@, e, wi as int);
                }
                match find_index(&w.entities[wi].components, pname) {
                    Some(ci) => {
                        proof {
                            lemma_find_at(w.entities@[wi as int].components@, pname, ci as int);
                        }
                        let comp = &w.entities[wi].components[ci];
                        if comp.fields.len() > 0 {
                            let f0 = comp.fields[0];
                            match f0 {
                                Field::EntityRef(parent) => {
                                    let ghost prev_batch = batch@;
                                    batch.push((e, parent));
                                    proof {
                                        assert(batch@[prev_batch.len() as int] == (e, parent));
                                        assert forall|x: (u64, u64)|
                                            prev_batch.contains(x) implies batch@.contains(x) by {
                                            let m2 = choose|m2: int|
                                                0 <= m2 < prev_batch.len() && prev_batch[m2] == x;
                                            assert(batch@[m2] == x);
                                        }
                                        assert(batch@.contains((e, parent)));
                                    }
                                },
                                Field::Data(d) => {},
                            }
                        }
                    },
                    None => {
                        proof {
                            lemma_find_some(w.entities@[wi as int].components@, pname);
                        }
                    },
                }
            },
            None => {
                proof {
                    lemma_find_some(w.entities@, e);
                }
            },
        }
        proof {
            assert forall|i2: int|
                0 <= i2 < i + 1 && alive(w0, #[trigger] spawned@[i2]) && parent_link(
                    components_of(w0, spawned@[i2]),
                    pname,
                ) is Some implies batch@.contains(
                (spawned@[i2], parent_link(components_of(w0, spawned@[i2]), pname)->Some_0),
            ) by {}
        }
        i = i + 1;
    }
    let bn = batch.len();
    let mut k: usize = 0;
    while k < bn
        invariant
            k <= bn,
            bn == batch@.len(),
            wf_world(*w),
            w.resources@ == w0.resources@,
            w.registry == w0.registry,
            w.next_id == w0.next_id,
            w.default_despawn == w0.default_despawn,
            w.default_mapping == w0.default_mapping,
            forall|id: u64| #[trigger] alive(*w, id) <==> alive(w0, id),
            forall|id: u64|
                (forall|m: int| 0 <= m < k ==> (#[trigger] batch@[m]).0 != id) ==> (
                #[trigger] entity_of(*w, id)) == entity_of(w0, id),
            forall|m: int|
                0 <= m < k ==> (match find(
                    components_of(*w, (#[trigger] batch@[m]).0),
                    pname,
                ) {
                    Some(c) => c.name == pname && c.fields@.len() == 1 && c.fields@[0]
                        == Field::EntityRef(batch@[m].1),
                    None => false,
                }) && (forall|n2: u64|
                    n2 != pname ==> find(components_of(*w, batch@[m].0), n2) == find(
                        components_of(w0, batch@[m].0),
                        n2,
                    )),
        decreases bn - k,
    {
        let (e, parent) = batch[k];
        proof {
            assert(batch@[k as int].0 == e && batch@[k as int].1 == parent);
            assert(alive(w0, e));
            assert(alive(*w, e));
            let j2 = choose|j2: int| 0 <= j2 < w.entities@.len() && w.entities@[j2].key() == e;
            assert(w.entities@[j2].id < w.next_id);
        }
        let mut fs: Vec<Field> = Vec::new();
        fs.push(Field::EntityRef(parent));
        let link = DynamicValue { name: pname, fields: fs };
        let ghost w_prev = *w;
        w.merge_component(e, link);
        proof {
            assert forall|m: int|
                0 <= m < k + 1 implies (match find(
                components_of(*w, (#[trigger] batch@[m]).0),
                pname,
            ) {
                Some(c) => c.name == pname && c.fields@.len() == 1 && c.fields@[0]
                    == Field::EntityRef(batch@[m].1),
                None => false,
            }) && (forall|n2: u64|
                n2 != pname ==> find(components_of(*w, batch@[m].0), n2) == find(
                    components_of(w0, batch@[m].0),
                    n2,
                )) by {
                if batch@[m].0 == e {
                    assert(parent_link(components_of(w0, e), pname) == Some(batch@[m].1));
                    assert(parent_link(components_of(w0, e), pname) == Some(parent));
                    assert(batch@[m].1 == parent);
                    assert forall|n2: u64|
                        n2 != pname implies find(components_of(*w, e), n2) == find(
                        components_of(w0, e),
                        n2,
                    ) by {
                        assert(find(components_of(*w, e), n2) == find(
                            components_of(w_prev, e),
                            n2,
                        ));
                        if forall|m2: int| 0 <= m2 < k ==> (#[trigger] batch@[m2]).0 != e {
                            assert(entity_of(w_prev, e) == entity_of(w0, e));
                        } else {
                            let m2 = choose|m2: int| 0 <= m2 < k && (#[trigger] batch@[m2]).0 == e;
                            assert(find(components_of(w_prev, e), n2) == find(
                                components_of(w0, e),
                                n2,
                            ));
                        }
                    }
                } else {
                    assert(entity_of(*w, batch@[m].0) == entity_of(w_prev, batch@[m].0));
                }
            }
            assert forall|id: u64|
                (forall|m: int| 0 <= m < k + 1 ==> (#[trigger] batch@[m]).0 != id) implies (
                #[trigger] entity_of(*w, id)) == entity_of(w0, id) by {
                assert(batch@[k as int].0 != id);
                assert(entity_of(*w, id) == entity_of(w_prev, id));
            }
        }
        k = k + 1;
    }
    proof {
        assert forall|id: u64|
            #[trigger] spawned@.contains(id) && alive(w0, id) implies (match parent_link(
            components_of(w0, id),
            w0.registry.parent_name,
        ) {
            Some(p) => (match find(components_of(*w, id), w0.registry.parent_name) {
                Some(c) => c.name == w0.registry.parent_name && c.fields@.len() == 1
                    && c.fields@[0] == Field::EntityRef(p),
                None => false,
            }) && (forall|n2: u64|
                n2 != w0.registry.parent_name ==> find(components_of(*w, id), n2) == find(
                    components_of(w0, id),
                    n2,
                )),
            None => entity_of(*w, id) == entity_of(w0, id),
        }) by {
            let i2 = choose|i2: int| 0 <= i2 < spawned@.len() && spawned@[i2] == id;
            match parent_link(components_of(w0, id), pname) {
                Some(p) => {
                    assert(batch@.contains((id, p)));
                    let m = choose|m: int| 0 <= m < batch@.len() && batch@[m] == (id, p);
                    assert(batch@[m].0 == id && batch@[m].1 == p);
                },
                None => {
                    assert forall|m: int| 0 <= m < bn implies (#[trigger] batch@[m]).0 != id by {
                        if batch@[m].0 == id {
                            assert(parent_link(components_of(w0, id), pname) is Some);
                        }
                    }
                },
            }
        }
    }
}

/// What the per-entity adjustment does: when configured, every resolved
/// entity receives a merged copy of the adjustment component, flushed as
/// one batch after all entities are visited; nothing else changes.
///
/// The adjustment is data, not a caller closure: verified code cannot hold
/// an arbitrary caller callback under contract, since nothing would check
/// what the callback's mutation handle does to the world. The data form
/// keeps the phase's guarantees — once per resolved entity, after the
/// global remap and hierarchy fix-up, batched, never when unset — at the
/// price of the callback's generality.
pub open spec fn hook_post(w0: World, h: Option<DynamicValue>, spawned: Seq<u64>, w1: World) -> bool {
    match h {
        None => w1 == w0,
        Some(hv) => {
            &&& w1.resources@ == w0.resources@
            &&& w1.registry == w0.registry
            &&& w1.next_id == w0.next_id
            &&& w1.default_despawn == w0.default_despawn
            &&& w1.default_mapping == w0.default_mapping
            &&& forall|id: u64| #[trigger] alive(w1, id) <==> alive(w0, id)
            &&& forall|id: u64|
                !spawned.contains(id) ==> (#[trigger] entity_of(w1, id)) == entity_of(w0, id)
            &&& forall|id: u64|
                #[trigger] spawned.contains(id) && alive(w0, id) ==> (match find(
                    components_of(w1, id),
                    hv.name,
                ) {
                    Some(c) => dv_eq(c, hv),
                    None => false,
                }) && (forall|n2: u64|
                    n2 != hv.name ==> find(components_of(w1, id), n2) == find(
                        components_of(w0, id),
                        n2,
                    ))
        },
    }
}

/// Merge the configured adjustment component onto every resolved entity,
/// if one is configured.
#[verifier::loop_isolation(false)]
pub fn apply_hook(w: &mut World, h: &Option<DynamicValue>, spawned: &Vec<u64>)
    requires
        wf_world(*old(w)),
    ensures
        wf_world(*final(w)),
        hook_post(*old(w), *h, spawned@, *final(w)),
{
    let hv = match h {
        Some(hv) => hv,
        None => {
            return ;
        },
    };
    let ghost w0 = *w;
    let n = spawned.len();
    let mut i: usize = 0;
    while i < n
        invariant
            i <= n,
            n == spawned@.len(),
            wf_world(*w),
            w.resources@ == w0.resources@,
            w.registry == w0.registry,
            w.next_id == w0.next_id,
            w.default_despawn == w0.default_despawn,
            w.default_mapping == w0.default_mapping,
            forall|id: u64| #[trigger] alive(*w, id) <==> alive(w0, id),
            forall|id: u64|
                (forall|i2: int| 0 <= i2 < i ==> (#[trigger] spawned@[i2]) != id) ==> (
                #[trigger] entity_of(*w, id)) == entity_of(w0, id),
            forall|i2: int|
                0 <= i2 < i && alive(w0, #[trigger] spawned@[i2]) ==> (match find(
                    components_of(*w, spawned@[i2]),
                    hv.name,
                ) {
                    Some(c) => dv_eq(c, *hv),
                    None => false,
                }) && (forall|n2: u64|
                    n2 != hv.name ==> find(components_of(*w, spawned@[i2]), n2) == find(
                        components_of(w0, spawned@[i2]),
                        n2,
                    )),
        decreases n - i,
    {
        let e = spawned[i];
        if w.is_alive(e) {
            proof {
                let j2 = choose|j2: int| 0 <= j2 < w.entities@.len() && w.entities@[j2].key() == e;
                assert(w.entities@[j2].id < w.next_id);
            }
            let c = hv.clone_value();
            let ghost w_prev = *w;
            w.merge_component(e, c);
            proof {
                assert forall|i2: int|
                    0 <= i2 < i + 1 && alive(w0, #[trigger] spawned@[i2]) implies (match find(
                    components_of(*w, spawned@[i2]),
                    hv.name,
                ) {
                    Some(c2) => dv_eq(c2, *hv),
                    None => false,
                }) && (forall|n2: u64|
                    n2 != hv.name ==> find(components_of(*w, spawned@[i2]), n2) == find(
                        components_of(w0, spawned@[i2]),
                        n2,
                    )) by {
                    if spawned@[i2] == e {
                        assert forall|n2: u64|
                            n2 != hv.name implies find(components_of(*w, e), n2) == find(
                            components_of(w0, e),
                            n2,
                        ) by {
                            assert(find(components_of(*w, e), n2) == find(
                                components_of(w_prev, e),
                                n2,
                            ));
                            if forall|i3: int| 0 <= i3 < i ==> (#[trigger] spawned@[i3]) != e {
                                assert(entity_of(w_prev, e) == entity_of(w0, e));
                            } else {
                                let i3 = choose|i3: int|
                                    0 <= i3 < i && (#[trigger] spawned@[i3]) == e;
                                assert(find(components_of(w_prev, e), n2) == find(
                                    components_of(w0, e),
                                    n2,
                                ));
                            }
                        }
                    } else {
                        assert(entity_of(*w, spawned@[i2]) == entity_of(w_prev, spawned@[i2]));
                    }
                }
                assert forall|id: u64|
                    (forall|i2: int| 0 <= i2 < i + 1 ==> (#[trigger] spawned@[i2]) != id)
                    implies (#[trigger] entity_of(*w, id)) == entity_of(w0, id) by {
                    assert(spawned@[i as int] != id);
                    assert(entity_of(*w, id) == entity_of(w_prev, id));
                }
            }
        } else {
            proof {
                assert(!alive(w0, spawned@[i as int]));
            }
        }
        i = i + 1;
    }
    proof {
        assert forall|id: u64|
            #[trigger] spawned@.contains(id) && alive(w0, id) implies (match find(
            components_of(*w, id),
            hv.name,
        ) {
            Some(c) => dv_eq(c, *hv),
            None => false,
        }) && (forall|n2: u64|
            n2 != hv.name ==> find(components_of(*w, id), n2) == find(
                components_of(w0, id),
                n2,
            )) by {
            let i2 = choose|i2: int| 0 <= i2 < spawned@.len() && spawned@[i2] == id;
        }
        assert forall|id: u64|
            !spawned@.contains(id) implies (#[trigger] entity_of(*w, id)) == entity_of(
            w0,
            id,
        ) by {
            assert forall|i2: int| 0 <= i2 < n implies (#[trigger] spawned@[i2]) != id by {
                if spawned@[i2] == id {
                    assert(spawned@.contains(id));
                }
            }
        }
    }
}

/// Seed a working identity map with every live entity mapped to itself.
#[verifier::loop_isolation(false)]
pub fn seed_map(w: &World) -> (fb: EntityMap)
    requires
        wf_world(*w),
    ensures
        fb.wf(),
        forall|k: u64|
            (#[trigger] em_lookup(fb.pairs@, k)) == (if alive(*w, k) {
                Some(k)
            } else {
                None::<u64>
            }),
{
    let mut fb = EntityMap::new();
    let ids = w.entity_ids();
    let n = ids.len();
    let mut i: usize = 0;
    while i < n
        invariant
            i <= n,
            n == ids@.len(),
            fb.wf(),
            forall|k: u64|
                (#[trigger] em_lookup(fb.pairs@, k)) == (if exists|j: int|
                    0 <= j < i && ids@[j] == k {
                    Some(k)
                } else {
                    None::<u64>
                }),
        decreases n - i,
    {
        let id = ids[i];
        fb.insert(id, id);
        proof {
            assert forall|k: u64|
                true implies (#[trigger] em_lookup(fb.pairs@, k)) == (if exists|j: int|
                0 <= j < i + 1 && ids@[j] == k {
                Some(k)
            } else {
                None::<u64>
            }) by {
                if k == id {
                    assert(ids@[i as int] == k);
                } else {
                    if exists|j: int| 0 <= j < i + 1 && ids@[j] == k {
                        let j = choose|j: int| 0 <= j < i + 1 && ids@[j] == k;
                        assert(0 <= j < i && ids@[j] == k);
                    }
                }
            }
        }
        i = i + 1;
    }
    proof {
        assert forall|k: u64| true implies ((exists|j: int| 0 <= j < n && ids@[j] == k) <==> alive(
            *w,
            k,
        )) by {
            if exists|j: int| 0 <= j < n && ids@[j] == k {
                let j = choose|j: int| 0 <= j < n && ids@[j] == k;
                assert(w.entities@[j].key() == k);
            }
            if alive(*w, k) {
                let j = choose|j: int|
                    0 <= j < w.entities@.len() && w.entities@[j].key() == k;
                assert(ids@[j] == k);
            }
        }
    }
    fb
}

/// One full application, phase by phase: the worlds and results each phase
/// produced, chained with fail-fast short-circuiting.
pub open spec fn apply_chain(
    w0: World,
    s: RawSnapshot,
    a: Applier,
    w1: World,
    r1: Result<(), SaveableError>,
    mode: DespawnMode,
    w2: World,
    mm: MappingMode,
    fb0: Seq<(u64, u64)>,
    w3: World,
    fb1: Seq<(u64, u64)>,
    spawned: Seq<u64>,
    r3: Result<(), SaveableError>,
    w4: World,
    r4: Result<(), SaveableError>,
    w5: World,
    w9: World,
    r: Result<(), SaveableError>,
) -> bool {
    &&& resources_post(w0, s.resources@, a.map.pairs@, w1, r1)
    &&& wf_world(w1)
    &&& match r1 {
        Err(e) => r == Err::<(), SaveableError>(e) && w9 == w1,
        Ok(()) => {
            &&& dm_eq(mode, effective_despawn(a.despawn, w0.default_despawn))
            &&& despawn_post(w1, s, a.map.pairs@, mode, w2)
            &&& wf_world(w2)
            &&& mm == effective_mapping(a.mapping, w0.default_mapping)
            &&& forall|k: u64|
                (#[trigger] em_lookup(fb0, k)) == (if alive(w2, k) {
                    Some(k)
                } else {
                    None::<u64>
                })
            &&& merge_post(w2, s, a.map.pairs@, mm, fb0, w3, fb1, spawned, r3)
            &&& wf_world(w3)
            &&& match r3 {
                Err(e) => r == Err::<(), SaveableError>(e) && w9 == w3,
                Ok(()) => {
                    &&& remap_post(w3, fb1, w4, r4)
                    &&& wf_world(w4)
                    &&& match r4 {
                        Err(e) => r == Err::<(), SaveableError>(e) && w9 == w4,
                        Ok(()) => {
                            &&& hierarchy_post(w4, spawned, w5)
                            &&& wf_world(w5)
                            &&& hook_post(w5, a.hook, spawned, w9)
                            &&& r is Ok
                        },
                    }
                },
            }
        },
    }
}

/// What `apply` does: there exist per-phase intermediate worlds, a working
/// map and a resolved-target list chaining the phases together.
pub open spec fn apply_post(
    w0: World,
    s: RawSnapshot,
    a: Applier,
    w9: World,
    r: Result<(), SaveableError>,
) -> bool {
    exists|
        w1: World,
        r1: Result<(), SaveableError>,
        mode: DespawnMode,
        w2: World,
        mm: MappingMode,
        fb0: Seq<(u64, u64)>,
        w3: World,
        fb1: Seq<(u64, u64)>,
        spawned: Seq<u64>,
        r3: Result<(), SaveableError>,
        w4: World,
        r4: Result<(), SaveableError>,
        w5: World,
    |
        #[trigger] apply_chain(
            w0,
            s,
            a,
            w1,
            r1,
            mode,
            w2,
            mm,
            fb0,
            w3,
            fb1,
            spawned,
            r3,
            w4,
            r4,
            w5,
            w9,
            r,
        )
}

/// The applier: a caller-supplied entity map, optional despawn and mapping
/// overrides, and an optional per-entity adjustment component.
pub struct Applier {
    pub map: EntityMap,
    pub despawn: Option<DespawnMode>,
    pub mapping: Option<MappingMode>,
    pub hook: Option<DynamicValue>,
}

impl Applier {
    /// An applier over a caller-supplied entity map, with no overrides.
    pub fn new(map: EntityMap) -> (r: Self)
        ensures
            r.map == map,
            r.despawn is None,
            r.mapping is None,
            r.hook is None,
    {
        Applier { map, despawn: None, mapping: None, hook: None }
    }

    /// Override the despawn mode.
    pub fn despawn(self, mode: DespawnMode) -> (r: Self)
        ensures
            r.map == self.map,
            r.despawn == Some(mode),
            r.mapping == self.mapping,
            r.hook == self.hook,
    {
        Applier { despawn: Some(mode), ..self }
    }

    /// Override the mapping mode.
    pub fn mapping(self, mode: MappingMode) -> (r: Self)
        ensures
            r.map == self.map,
            r.despawn == self.despawn,
            r.mapping == Some(mode),
            r.hook == self.hook,
    {
        Applier { mapping: Some(mode), ..self }
    }

    /// Configure the per-entity adjustment: a component merged onto every
    /// resolved entity after all other phases. This narrows the
    /// caller-supplied closure of a hook to a fixed value; see `hook_post`
    /// for why.
    pub fn hook(self, value: DynamicValue) -> (r: Self)
        ensures
            r.map == self.map,
            r.despawn == self.despawn,
            r.mapping == self.mapping,
            r.hook == Some(value),
    {
        Applier { hook: Some(value), ..self }
    }

    /// Apply the snapshot onto the target world, in ordered phases:
    /// resource restore, despawn selection, mapping-policy resolution,
    /// per-entity resolution and merge, global reference remap, hierarchy
    /// fix-up, and the optional per-entity adjustment. The first error
    /// aborts the remaining phases; committed mutations are not rolled
    /// back.
    pub fn apply(&self, w: &mut World, s: &RawSnapshot) -> (r: Result<(), SaveableError>)
        requires
            wf_world(*old(w)),
            wf_snapshot(*s),
            old(w).next_id + s.entities@.len() < u64::MAX,
            forall|i: int|
                0 <= i < self.map.pairs@.len() ==> (#[trigger] self.map.pairs@[i]).1
                    + s.entities@.len() < u64::MAX,
        ensures
            wf_world(*final(w)),
            apply_post(*old(w), *s, *self, *final(w), r),
    {
        let ghost w0 = *w;
        let r1 = apply_resources(w, &s.resources, &self.map);
        let ghost w1 = *w;
        match r1 {
            Err(e) => {
                proof {
                    assert(apply_chain(
                        w0,
                        *s,
                        *self,
                        w1,
                        r1,
                        DespawnMode::Keep,
                        w1,
                        MappingMode::Simple,
                        Seq::<(u64, u64)>::empty(),
                        w1,
                        Seq::<(u64, u64)>::empty(),
                        Seq::<u64>::empty(),
                        r1,
                        w1,
                        r1,
                        w1,
                        w1,
                        Err(e),
                    ));
                }
                return Err(e);
            },
            Ok(()) => {},
        }
        let mode = apply_despawn(w, s, &self.map, &self.despawn);
        let ghost w2 = *w;
        let mm: MappingMode = match &self.mapping {
            Some(m2) => *m2,
            None => match &w.default_mapping {
                Some(m2) => *m2,
                None => MappingMode::Simple,
            },
        };
        let mut fb = seed_map(w);
        let ghost fb0 = fb.pairs@;
        let mut spawned: Vec<u64> = Vec::new();
        let r3 = merge_entities(w, s, &self.map, mm, &mut fb, &mut spawned);
        let ghost w3 = *w;
        match r3 {
            Err(e) => {
                proof {
                    assert(apply_chain(
                        w0,
                        *s,
                        *self,
                        w1,
                        r1,
                        mode@,
                        w2,
                        mm,
                        fb0,
                        w3,
                        fb.pairs@,
                        spawned@,
                        r3,
                        w3,
                        r3,
                        w3,
                        w3,
                        Err(e),
                    ));
                }
                return Err(e);
            },
            Ok(()) => {},
        }
        let r4 = remap_world(w, &fb);
        let ghost w4 = *w;
        match r4 {
            Err(e) => {
                proof {
                    assert(apply_chain(
                        w0,
                        *s,
                        *self,
                        w1,
                        r1,
                        mode@,
                        w2,
                        mm,
                        fb0,
                        w3,
                        fb.pairs@,
                        spawned@,
                        r3,
                        w4,
                        r4,
                        w4,
                        w4,
                        Err(e),
                    ));
                }
                return Err(e);
            },
            Ok(()) => {},
        }
        fix_hierarchy(w, &spawned);
        let ghost w5 = *w;
        apply_hook(w, &self.hook, &spawned);
        proof {
            assert(apply_chain(
                w0,
                *s,
                *self,
                w1,
                r1,
                mode@,
                w2,
                mm,
                fb0,
                w3,
                fb.pairs@,
                spawned@,
                r3,
                w4,
                r4,
                w5,
                *w,
                Ok(()),
            ));
        }
        Ok(())
    }
}

} // verus!
