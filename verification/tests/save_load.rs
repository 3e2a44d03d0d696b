use artisan::archetype::ItemLayout;
use artisan::load::LoadError;
use artisan::world::World;

const POS: u64 = 1;
const VEL: u64 = 2;

fn l4() -> ItemLayout {
    ItemLayout { size: 4, align: 4 }
}

fn world_with_two() -> (World, artisan::entity::Entity, artisan::entity::Entity) {
    let mut w = World::new();
    w.register_serializable(POS, l4());
    w.register_serializable(VEL, l4());
    let a = w.spawn();
    w.add_component(a, POS, l4(), &[1, 2, 3, 4]);
    let b = w.spawn();
    w.add_component(b, POS, l4(), &[5, 6, 7, 8]);
    w.add_component(b, VEL, l4(), &[9, 9, 9, 9]);
    (w, a, b)
}

#[test]
fn load_gives_back_saved_values() {
    let (mut w, a, b) = world_with_two();
    let pos = w.get_component_id(POS).unwrap();
    let sw = w.save_to_serialized();
    assert!(w.set_component(a, pos, &[0, 0, 0, 0]));
    assert_eq!(w.get_component(a, POS), Some(&vec![0, 0, 0, 0]));
    assert_eq!(w.load_from_serialized(sw), Ok(()));
    assert_eq!(w.get_component(a, POS), Some(&vec![1, 2, 3, 4]));
    assert_eq!(w.get_component(b, POS), Some(&vec![5, 6, 7, 8]));
    assert_eq!(w.get_component(b, VEL), Some(&vec![9, 9, 9, 9]));
    assert!(w.is_alive(a));
    assert!(w.is_alive(b));
}

#[test]
fn load_restores_a_despawned_entity() {
    let (mut w, a, _b) = world_with_two();
    let sw = w.save_to_serialized();
    w.kill(a);
    assert!(!w.is_alive(a));
    let mut sw2 = w.save_to_serialized();
    assert_eq!(w.free_entities.len(), 1);
    // the earlier save has the killed slot live: loading it brings the entity
    // back and drops the slot from the free list
    assert_eq!(w.load_from_serialized(sw), Ok(()));
    assert!(w.is_alive(a));
    assert_eq!(w.get_component(a, POS), Some(&vec![1, 2, 3, 4]));
    assert!(w.free_entities.is_empty());
    sw2.current_tick = 40;
    assert_eq!(w.load_from_serialized(sw2), Ok(()));
    assert_eq!(w.current_tick, 40);
    assert!(!w.is_alive(a));
}

#[test]
fn load_into_world_that_spawned_and_killed() {
    let mut src = World::new();
    let e = src.spawn();
    let sw = src.save_to_serialized();
    let mut w = World::new();
    let x = w.spawn();
    w.kill(x);
    assert_eq!(w.load_from_serialized(sw), Ok(()));
    assert!(w.is_alive(e));
    assert_eq!(w.records, src.records);
    assert_eq!(w.current_tick, src.current_tick);
    assert_eq!(w.entity_count(), 1);
    assert!(w.free_entities.is_empty());
}

#[test]
fn load_refuses_live_slot_past_count() {
    let (mut w, _a, _b) = world_with_two();
    let mut sw = w.save_to_serialized();
    sw.next_entity_id = 1;
    assert_eq!(w.load_from_serialized(sw), Err(LoadError::Allocation));
}

#[test]
fn load_sets_tick_and_active_archetypes() {
    let (mut w, _a, _b) = world_with_two();
    let mut sw = w.save_to_serialized();
    sw.current_tick = 17;
    assert_eq!(w.load_from_serialized(sw), Ok(()));
    assert_eq!(w.current_tick, 17);
    let mut expected: Vec<u32> = Vec::new();
    for (i, arch) in w.archetypes.iter().enumerate() {
        assert_eq!(arch.id as usize, i);
        assert_eq!(arch.last_modified_tick, 17);
        if !arch.entities.is_empty() {
            expected.push(i as u32);
        }
        for col in arch.columns.iter() {
            assert!(col.added_ticks.iter().all(|t| *t == 17));
            assert!(col.changed_ticks.iter().all(|t| *t == 17));
        }
    }
    assert_eq!(w.active_archetypes, expected);
}

#[test]
fn load_refuses_no_archetypes() {
    let (mut w, a, _b) = world_with_two();
    let mut sw = w.save_to_serialized();
    sw.archetypes.clear();
    assert_eq!(w.load_from_serialized(sw), Err(LoadError::Archetype));
    assert_eq!(w.get_component(a, POS), Some(&vec![1, 2, 3, 4]));
}

#[test]
fn load_refuses_missing_column() {
    let (mut w, a, _b) = world_with_two();
    let mut sw = w.save_to_serialized();
    let arch = w.records[a.id as usize].archetype_id as usize;
    sw.archetypes[arch].columns.clear();
    assert_eq!(w.load_from_serialized(sw), Err(LoadError::Column));
}

#[test]
fn load_refuses_short_row() {
    let (mut w, a, _b) = world_with_two();
    let mut sw = w.save_to_serialized();
    let arch = w.records[a.id as usize].archetype_id as usize;
    sw.archetypes[arch].columns[0].data[0] = vec![1, 2];
    assert_eq!(w.load_from_serialized(sw), Err(LoadError::Column));
}

#[test]
fn load_refuses_unserializable_component() {
    let mut w = World::new();
    let e = w.spawn();
    w.add_component(e, POS, l4(), &[1, 2, 3, 4]);
    let sw = w.save_to_serialized();
    assert_eq!(w.load_from_serialized(sw), Err(LoadError::Column));
    assert_eq!(w.get_component(e, POS), Some(&vec![1, 2, 3, 4]));
}

#[test]
fn load_refuses_wrong_record() {
    let (mut w, a, _b) = world_with_two();
    let mut sw = w.save_to_serialized();
    sw.records[a.id as usize].row += 1;
    assert_eq!(w.load_from_serialized(sw), Err(LoadError::Placement));
}

#[test]
fn load_refuses_unknown_component() {
    let (mut w, a, _b) = world_with_two();
    let mut sw = w.save_to_serialized();
    let arch = w.records[a.id as usize].archetype_id as usize;
    sw.archetypes[arch].signature = vec![99];
    assert_eq!(w.load_from_serialized(sw), Err(LoadError::Archetype));
}

#[test]
fn load_into_fresh_world_with_same_registry() {
    let (w, a, b) = world_with_two();
    let sw = w.save_to_serialized();
    let mut v = World::new();
    v.register_serializable(POS, l4());
    v.register_serializable(VEL, l4());
    assert_eq!(v.load_from_serialized(sw), Ok(()));
    assert_eq!(v.get_component(a, POS), Some(&vec![1, 2, 3, 4]));
    assert_eq!(v.get_component(b, VEL), Some(&vec![9, 9, 9, 9]));
    assert_eq!(v.entity_count(), 2);
}

#[test]
fn load_accepts_unserializable_component_of_empty_archetype() {
    let mut w = World::new();
    w.register_serializable(VEL, l4());
    let e = w.spawn();
    w.add_component(e, POS, l4(), &[1, 2, 3, 4]);
    w.add_component(e, VEL, l4(), &[5, 6, 7, 8]);
    w.remove_component(e, POS);
    let sw = w.save_to_serialized();
    let n = w.archetypes.len();
    assert_eq!(w.load_from_serialized(sw), Ok(()));
    assert_eq!(w.archetypes.len(), n);
    assert!(w.is_alive(e));
    assert_eq!(w.get_component(e, POS), None);
    assert_eq!(w.get_component(e, VEL), Some(&vec![5, 6, 7, 8]));
    for arch in w.archetypes.iter() {
        for col in arch.columns.iter() {
            assert_eq!(col.added_ticks.len(), arch.entities.len());
        }
    }
}
