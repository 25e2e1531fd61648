use world_snapshot::applier::{Applier, SaveableError};
use world_snapshot::builder::Builder;
use world_snapshot::entity_map::EntityMap;
use world_snapshot::policy::{DespawnMode, EntityFilter, MappingMode};
use world_snapshot::registry::{Registry, TypeFilter, TypeReg};
use world_snapshot::snapshot::RawSnapshot;
use world_snapshot::value::{CloneReflect, DynamicValue, Field};
use world_snapshot::world::World;

const POSITION: u64 = 1;
const VELOCITY: u64 = 2;
const SCORE: u64 = 3;
const PARENT: u64 = 10;
const NO_CAPS: u64 = 20;

fn registry() -> Registry {
    Registry {
        types: vec![
            TypeReg { name: POSITION, resource_cap: false, component_cap: true, map_entities_cap: false },
            TypeReg { name: VELOCITY, resource_cap: false, component_cap: true, map_entities_cap: false },
            TypeReg { name: SCORE, resource_cap: true, component_cap: false, map_entities_cap: false },
            TypeReg { name: PARENT, resource_cap: false, component_cap: true, map_entities_cap: true },
            TypeReg { name: NO_CAPS, resource_cap: false, component_cap: false, map_entities_cap: false },
        ],
        saveable: vec![POSITION, VELOCITY, SCORE, PARENT, NO_CAPS],
        parent_name: PARENT,
    }
}

fn val(name: u64, data: &[u64]) -> DynamicValue {
    let mut fields = Vec::new();
    for d in data {
        fields.push(Field::Data(*d));
    }
    DynamicValue { name, fields }
}

fn ref_val(name: u64, target: u64) -> DynamicValue {
    DynamicValue { name, fields: vec![Field::EntityRef(target)] }
}

fn comps_of(w: &World, id: u64) -> Vec<(u64, Vec<Field>)> {
    for rec in &w.entities {
        if rec.id == id {
            return rec.components.iter().map(|c| (c.name, c.fields.clone())).collect();
        }
    }
    panic!("entity {} not live", id);
}

fn build_all(w: &World) -> RawSnapshot {
    Builder::new().extract_all_entities(w).extract_all_resources(w).build()
}

#[test]
fn detaching_clone_copies_content() {
    let v = val(POSITION, &[1, 2, 3]);
    let c = v.clone_value();
    assert_eq!(c.name, POSITION);
    assert_eq!(c.fields, v.fields);
    let vs = vec![val(POSITION, &[1]), val(VELOCITY, &[2])];
    let cs = vs.clone_value();
    assert_eq!(cs.len(), 2);
    assert_eq!(cs[1].name, VELOCITY);
    let o: Option<DynamicValue> = Some(val(SCORE, &[7]));
    let oc = o.clone_value();
    assert_eq!(oc.unwrap().fields, vec![Field::Data(7)]);
}

#[test]
fn round_trip_strict_into_empty_world() {
    let mut w = World::new(registry());
    let a = w.spawn_empty();
    w.merge_component(a, val(POSITION, &[1, 2]));
    w.merge_component(a, val(VELOCITY, &[3]));
    let b = w.spawn_empty();
    w.merge_component(b, val(POSITION, &[4, 5]));
    w.insert_resource(val(SCORE, &[9]));

    let snapshot = build_all(&w);

    let mut target = World::new(registry());
    let applier = Applier::new(EntityMap::new())
        .despawn(DespawnMode::All)
        .mapping(MappingMode::Strict);
    applier.apply(&mut target, &snapshot).unwrap();

    assert_eq!(target.entities.len(), 2);
    // Strict allocation starts at the target's allocator mark.
    let new_a = target.entities[0].id;
    let new_b = target.entities[1].id;
    assert_eq!(
        comps_of(&target, new_a),
        vec![(POSITION, vec![Field::Data(1), Field::Data(2)]), (VELOCITY, vec![Field::Data(3)])]
    );
    assert_eq!(comps_of(&target, new_b), vec![(POSITION, vec![Field::Data(4), Field::Data(5)])]);
    assert_eq!(target.resources.len(), 1);
    assert_eq!(target.resources[0].name, SCORE);
    assert_eq!(target.resources[0].fields, vec![Field::Data(9)]);
}

#[test]
fn idempotence_under_despawn_all() {
    let mut w = World::new(registry());
    let a = w.spawn_empty();
    w.merge_component(a, val(POSITION, &[1]));
    let b = w.spawn_empty();
    w.merge_component(b, val(VELOCITY, &[2]));
    w.insert_resource(val(SCORE, &[5]));
    let snapshot = build_all(&w);

    let applier = Applier::new(EntityMap::new())
        .despawn(DespawnMode::All)
        .mapping(MappingMode::Strict);
    applier.apply(&mut w, &snapshot).unwrap();
    let first: Vec<Vec<(u64, Vec<Field>)>> =
        w.entities.iter().map(|r| comps_of(&w, r.id)).collect();
    let first_res: Vec<(u64, Vec<Field>)> =
        w.resources.iter().map(|r| (r.name, r.fields.clone())).collect();

    applier.apply(&mut w, &snapshot).unwrap();
    let second: Vec<Vec<(u64, Vec<Field>)>> =
        w.entities.iter().map(|r| comps_of(&w, r.id)).collect();
    let second_res: Vec<(u64, Vec<Field>)> =
        w.resources.iter().map(|r| (r.name, r.fields.clone())).collect();

    assert_eq!(first, second);
    assert_eq!(first_res, second_res);
}

#[test]
fn despawn_divergence_missing_vs_unmapped() {
    // A snapshot entity whose original identity has no caller-map entry.
    let mut src = World::new(registry());
    let orig = src.spawn_empty();
    src.merge_component(orig, val(POSITION, &[1]));
    let snapshot = build_all(&src);

    // A live world holding an entity with that same identity, plus another.
    let make_world = || {
        let mut w = World::new(registry());
        let e0 = w.spawn_empty();
        assert_eq!(e0, orig);
        w.merge_component(e0, val(POSITION, &[8]));
        let e1 = w.spawn_empty();
        w.merge_component(e1, val(VELOCITY, &[9]));
        (w, e1)
    };

    // Missing: the unmapped identity passes through, so the live entity
    // sharing it is valid and kept; the other is despawned.
    let (mut w_missing, other) = make_world();
    Applier::new(EntityMap::new())
        .despawn(DespawnMode::Missing)
        .mapping(MappingMode::Simple)
        .apply(&mut w_missing, &snapshot)
        .unwrap();
    assert!(w_missing.entities.iter().any(|r| r.id == orig));
    assert!(!w_missing.entities.iter().any(|r| r.id == other));

    // Unmapped: without an explicit map entry the snapshot entity counts
    // for nothing, so even the identity-sharing live entity is despawned.
    let (mut w_unmapped, other2) = make_world();
    Applier::new(EntityMap::new())
        .despawn(DespawnMode::Unmapped)
        .mapping(MappingMode::Strict)
        .apply(&mut w_unmapped, &snapshot)
        .unwrap();
    assert!(!w_unmapped.entities.iter().any(|r| r.id == orig));
    assert!(!w_unmapped.entities.iter().any(|r| r.id == other2));
}

#[test]
fn empty_filter_extraction_yields_no_records() {
    let mut w = World::new(registry());
    let a = w.spawn_empty();
    w.merge_component(a, val(POSITION, &[1]));
    let ids = vec![a];
    let b = Builder::new()
        .filter(TypeFilter::AllowList(Vec::new()))
        .extract_entities(&w, &ids)
        .clear_empty();
    assert_eq!(b.entities.len(), 0);
}

#[test]
fn subset_law_on_resources() {
    let mut w = World::new(registry());
    w.insert_resource(val(SCORE, &[1]));
    let names = vec![SCORE];
    let restricted = Builder::new().extract_resources(&w, &names);
    let all = Builder::new().extract_all_resources(&w);
    let narrowed: Vec<(u64, Vec<Field>)> = all
        .resources
        .iter()
        .filter(|r| names.contains(&r.name))
        .map(|r| (r.name, r.fields.clone()))
        .collect();
    let got: Vec<(u64, Vec<Field>)> =
        restricted.resources.iter().map(|r| (r.name, r.fields.clone())).collect();
    assert_eq!(got, narrowed);
    assert_eq!(got, vec![(SCORE, vec![Field::Data(1)])]);
}

#[test]
fn hierarchy_remap_scenario() {
    let mut w = World::new(registry());
    let a = w.spawn_empty();
    w.merge_component(a, val(POSITION, &[1]));
    let b = w.spawn_empty();
    w.merge_component(b, ref_val(PARENT, a));
    let snapshot = build_all(&w);

    Applier::new(EntityMap::new())
        .despawn(DespawnMode::All)
        .mapping(MappingMode::Strict)
        .apply(&mut w, &snapshot)
        .unwrap();

    assert_eq!(w.entities.len(), 2);
    let new_a = w
        .entities
        .iter()
        .find(|r| r.components.iter().any(|c| c.name == POSITION))
        .unwrap()
        .id;
    let parent_comp = w
        .entities
        .iter()
        .find(|r| r.components.iter().any(|c| c.name == PARENT))
        .unwrap()
        .components
        .iter()
        .find(|c| c.name == PARENT)
        .unwrap()
        .clone_value();
    assert_ne!(new_a, a, "Strict apply must allocate a fresh identity");
    assert_eq!(parent_comp.fields, vec![Field::EntityRef(new_a)]);
}

#[test]
fn unregistered_type_fails_and_spawns_nothing() {
    let mut w = World::new(registry());
    let live = w.spawn_empty();
    let snapshot = RawSnapshot {
        resources: vec![val(99, &[1])],
        entities: vec![world_snapshot::snapshot::SaveableEntity {
            entity: 77,
            components: vec![val(POSITION, &[1])],
        }],
    };
    let r = Applier::new(EntityMap::new()).apply(&mut w, &snapshot);
    assert_eq!(r, Err(SaveableError::UnregisteredType { name: 99 }));
    assert_eq!(w.entities.len(), 1);
    assert_eq!(w.entities[0].id, live);
}

#[test]
fn unregistered_resource_error() {
    let mut w = World::new(registry());
    // POSITION is registered but has no resource capability.
    let snapshot = RawSnapshot { resources: vec![val(POSITION, &[1])], entities: Vec::new() };
    let r = Applier::new(EntityMap::new()).apply(&mut w, &snapshot);
    assert_eq!(r, Err(SaveableError::UnregisteredResource { name: POSITION }));
}

#[test]
fn unregistered_component_error() {
    let mut w = World::new(registry());
    // NO_CAPS is registered but has no component capability.
    let snapshot = RawSnapshot {
        resources: Vec::new(),
        entities: vec![world_snapshot::snapshot::SaveableEntity {
            entity: 0,
            components: vec![val(NO_CAPS, &[1])],
        }],
    };
    let r = Applier::new(EntityMap::new()).apply(&mut w, &snapshot);
    assert_eq!(r, Err(SaveableError::UnregisteredComponent { name: NO_CAPS }));
}

#[test]
fn map_entities_error_on_resource_reference() {
    let mut reg = registry();
    reg.types.push(TypeReg {
        name: 40,
        resource_cap: true,
        component_cap: false,
        map_entities_cap: true,
    });
    reg.saveable.push(40);
    let mut w = World::new(reg);
    // A remapping resource holding a reference with no caller-map entry.
    let snapshot = RawSnapshot { resources: vec![ref_val(40, 123)], entities: Vec::new() };
    let r = Applier::new(EntityMap::new()).apply(&mut w, &snapshot);
    assert_eq!(r, Err(SaveableError::MapEntitiesError { entity: 123 }));
}

#[test]
fn simple_mapping_prefers_caller_map() {
    let mut src = World::new(registry());
    let orig = src.spawn_empty();
    src.merge_component(orig, val(POSITION, &[42]));
    let snapshot = build_all(&src);

    let mut w = World::new(registry());
    let target = w.spawn_empty();
    let other = w.spawn_empty();
    let mut map = EntityMap::new();
    map.insert(orig, target);
    Applier::new(map).mapping(MappingMode::Simple).apply(&mut w, &snapshot).unwrap();
    assert_eq!(comps_of(&w, target), vec![(POSITION, vec![Field::Data(42)])]);
    assert_eq!(comps_of(&w, other), Vec::<(u64, Vec<Field>)>::new());
}

#[test]
fn simple_mapping_reuses_live_identity() {
    let mut src = World::new(registry());
    let orig = src.spawn_empty();
    src.merge_component(orig, val(POSITION, &[7]));
    let snapshot = build_all(&src);

    let mut w = World::new(registry());
    let e = w.spawn_empty();
    assert_eq!(e, orig);
    Applier::new(EntityMap::new()).mapping(MappingMode::Simple).apply(&mut w, &snapshot).unwrap();
    assert_eq!(w.entities.len(), 1);
    assert_eq!(comps_of(&w, orig), vec![(POSITION, vec![Field::Data(7)])]);
}

#[test]
fn merge_overwrites_matching_component() {
    let mut src = World::new(registry());
    let orig = src.spawn_empty();
    src.merge_component(orig, val(POSITION, &[1]));
    let snapshot = build_all(&src);

    let mut w = World::new(registry());
    let e = w.spawn_empty();
    w.merge_component(e, val(POSITION, &[100]));
    w.merge_component(e, val(VELOCITY, &[5]));
    Applier::new(EntityMap::new()).mapping(MappingMode::Simple).apply(&mut w, &snapshot).unwrap();
    assert_eq!(
        comps_of(&w, e),
        vec![(POSITION, vec![Field::Data(1)]), (VELOCITY, vec![Field::Data(5)])]
    );
}

#[test]
fn builder_clear_and_replace() {
    let mut w = World::new(registry());
    let a = w.spawn_empty();
    w.merge_component(a, val(POSITION, &[1]));
    w.insert_resource(val(SCORE, &[2]));

    let b = Builder::new().extract_all_entities(&w).extract_all_resources(&w);
    assert_eq!(b.entities.len(), 1);
    assert_eq!(b.resources.len(), 1);
    let b = b.clear_entities();
    assert_eq!(b.entities.len(), 0);
    assert_eq!(b.resources.len(), 1);
    let b = b.clear_resources();
    assert_eq!(b.resources.len(), 0);

    // Re-extraction replaces any prior record under the same identity.
    let ids = vec![a];
    let b = Builder::new().extract_entities(&w, &ids).extract_entities(&w, &ids);
    assert_eq!(b.entities.len(), 1);
    assert_eq!(b.entities[0].id, a);
}

#[test]
fn extraction_skips_dead_and_unsaveable() {
    let mut reg = registry();
    reg.saveable = vec![POSITION];
    let mut w = World::new(reg);
    let a = w.spawn_empty();
    w.merge_component(a, val(POSITION, &[1]));
    w.merge_component(a, val(VELOCITY, &[2]));
    let ids = vec![a, 555];
    let b = Builder::new().extract_entities(&w, &ids);
    assert_eq!(b.entities.len(), 1);
    assert_eq!(b.entities[0].components.len(), 1);
    assert_eq!(b.entities[0].components[0].name, POSITION);
}

#[test]
fn despawn_all_with_filter() {
    let mut src = World::new(registry());
    let snapshot = build_all(&src);
    let mut w = World::new(registry());
    let a = w.spawn_empty();
    w.merge_component(a, val(POSITION, &[1]));
    let b = w.spawn_empty();
    w.merge_component(b, val(VELOCITY, &[2]));
    Applier::new(EntityMap::new())
        .despawn(DespawnMode::AllWith(EntityFilter { required: vec![POSITION] }))
        .apply(&mut w, &snapshot)
        .unwrap();
    assert!(!w.entities.iter().any(|r| r.id == a));
    assert!(w.entities.iter().any(|r| r.id == b));
}

#[test]
fn snapshot_default_is_empty() {
    let s = RawSnapshot::default();
    assert_eq!(s.resources.len(), 0);
    assert_eq!(s.entities.len(), 0);
}

#[test]
fn hook_attaches_component_to_resolved_entities() {
    let mut src = World::new(registry());
    let orig = src.spawn_empty();
    src.merge_component(orig, val(POSITION, &[1]));
    let snapshot = build_all(&src);

    let mut w = World::new(registry());
    Applier::new(EntityMap::new())
        .despawn(DespawnMode::All)
        .mapping(MappingMode::Strict)
        .hook(val(VELOCITY, &[99]))
        .apply(&mut w, &snapshot)
        .unwrap();
    assert_eq!(w.entities.len(), 1);
    let id = w.entities[0].id;
    assert_eq!(
        comps_of(&w, id),
        vec![(POSITION, vec![Field::Data(1)]), (VELOCITY, vec![Field::Data(99)])]
    );
}

#[test]
fn world_level_defaults_are_used() {
    let mut src = World::new(registry());
    let orig = src.spawn_empty();
    src.merge_component(orig, val(POSITION, &[3]));
    let snapshot = build_all(&src);

    let mut w = World::new(registry());
    let stale = w.spawn_empty();
    w.merge_component(stale, val(VELOCITY, &[1]));
    w.default_despawn = Some(DespawnMode::All);
    w.default_mapping = Some(MappingMode::Strict);

    // No overrides: the world-level defaults decide.
    Applier::new(EntityMap::new()).apply(&mut w, &snapshot).unwrap();
    assert_eq!(w.entities.len(), 1);
    assert_ne!(w.entities[0].id, orig, "Strict default must allocate fresh");
    assert!(!w.entities.iter().any(|r| r.id == stale));
}

#[test]
fn saveable_entity_and_snapshot_helpers() {
    let e = world_snapshot::snapshot::SaveableEntity { entity: 5, components: Vec::new() };
    assert!(e.is_empty());
    let mut m = EntityMap::new();
    assert_eq!(e.map(&m), None);
    assert_eq!(e.try_map(&m), 5);
    m.insert(5, 11);
    assert_eq!(e.map(&m), Some(11));
    assert_eq!(e.try_map(&m), 11);
    assert_eq!(m.get(5), Some(11));
    assert!(m.contains(5));

    let s = RawSnapshot {
        resources: vec![val(SCORE, &[1])],
        entities: vec![world_snapshot::snapshot::SaveableEntity {
            entity: 0,
            components: vec![val(POSITION, &[2])],
        }],
    };
    let c = s.clone_value();
    assert_eq!(c.resources[0].fields, s.resources[0].fields);
    assert_eq!(c.entities[0].entity, 0);
    assert_eq!(c.entities[0].components[0].fields, vec![Field::Data(2)]);
}

#[test]
fn later_merge_wins_on_shared_target() {
    let mut src = World::new(registry());
    let first = src.spawn_empty();
    src.merge_component(first, val(POSITION, &[1]));
    let second = src.spawn_empty();
    src.merge_component(second, val(POSITION, &[2]));
    src.merge_component(second, val(VELOCITY, &[3]));
    let snapshot = build_all(&src);

    // Both captured entities resolve, through the caller map, to one target.
    let mut w = World::new(registry());
    let mut map = EntityMap::new();
    map.insert(first, 5);
    map.insert(second, 5);
    Applier::new(map).mapping(MappingMode::Simple).apply(&mut w, &snapshot).unwrap();
    assert_eq!(
        comps_of(&w, 5),
        vec![(POSITION, vec![Field::Data(2)]), (VELOCITY, vec![Field::Data(3)])]
    );
}
