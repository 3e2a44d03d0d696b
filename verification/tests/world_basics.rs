use artisan::archetype::ItemLayout;
use artisan::entity::Entity;
use artisan::world::{BundleComponent, World};

const POS: u64 = 1;
const VEL: u64 = 2;
const TAG: u64 = 3;

fn l4() -> ItemLayout {
    ItemLayout { size: 4, align: 4 }
}

fn l0() -> ItemLayout {
    ItemLayout { size: 0, align: 1 }
}

#[test]
fn new_world_is_empty() {
    let w = World::new();
    assert_eq!(w.entity_count(), 0);
    assert_eq!(w.archetypes.len(), 1);
    assert_eq!(w.structural_gen, 1);
    assert_eq!(w.current_tick, 1);
    assert_eq!(w.get_column_len(0), 0);
}

#[test]
fn spawn_gives_fresh_ids_and_counts() {
    let mut w = World::new();
    let a = w.spawn();
    let b = w.spawn();
    assert_eq!(a, Entity { id: 0, generation: 0 });
    assert_eq!(b, Entity { id: 1, generation: 0 });
    assert!(w.is_alive(a) && w.is_alive(b));
    assert_eq!(w.entity_count(), 2);
    assert_eq!(w.get_column_len(0), 2);
}

#[test]
fn kill_recycles_slot_with_next_generation() {
    let mut w = World::new();
    let a = w.spawn();
    let _b = w.spawn();
    w.kill(a);
    assert!(!w.is_alive(a));
    assert_eq!(w.entity_count(), 1);
    assert_eq!(w.generation_of(a.id), Some(1));
    let c = w.spawn();
    assert_eq!(c, Entity { id: 0, generation: 1 });
    assert!(w.is_alive(c));
    assert!(!w.is_alive(a));
}

#[test]
fn killing_a_dead_handle_changes_nothing() {
    let mut w = World::new();
    let a = w.spawn();
    w.kill(a);
    let before = w.entity_count();
    w.kill(a);
    assert_eq!(w.entity_count(), before);
    assert_eq!(w.free_entities.len(), 1);
}

#[test]
fn generation_of_unrecorded_slot_is_none() {
    let w = World::new();
    assert_eq!(w.generation_of(5), None);
}

#[test]
fn records_grow_to_at_least_128_slots() {
    let mut w = World::new();
    w.spawn();
    assert_eq!(w.records.len(), 128);
    assert_eq!(w.generation_of(127), Some(0));
}

#[test]
fn add_then_get_component() {
    let mut w = World::new();
    let e = w.spawn();
    w.add_component(e, POS, l4(), &[1, 2, 3, 4]);
    assert_eq!(w.get_component(e, POS), Some(&vec![1, 2, 3, 4]));
    assert_eq!(w.get_component(e, VEL), None);
    w.add_component(e, POS, l4(), &[9, 9, 9, 9]);
    assert_eq!(w.get_component(e, POS), Some(&vec![9, 9, 9, 9]));
}

#[test]
fn remove_component_keeps_others() {
    let mut w = World::new();
    let e = w.spawn();
    w.add_component(e, POS, l4(), &[1, 1, 1, 1]);
    w.add_component(e, VEL, l4(), &[2, 2, 2, 2]);
    w.remove_component(e, POS);
    assert_eq!(w.get_component(e, POS), None);
    assert_eq!(w.get_component(e, VEL), Some(&vec![2, 2, 2, 2]));
    assert!(w.is_alive(e));
}

#[test]
fn remove_then_add_back_restores_value_and_set() {
    let mut w = World::new();
    let e = w.spawn();
    w.add_component(e, POS, l4(), &[1, 2, 3, 4]);
    w.add_component(e, TAG, l0(), &[]);
    w.remove_component(e, TAG);
    assert_eq!(w.get_component(e, TAG), None);
    assert_eq!(w.get_component(e, POS), Some(&vec![1, 2, 3, 4]));
}

#[test]
fn component_ops_on_dead_handle_do_nothing() {
    let mut w = World::new();
    let e = w.spawn();
    w.kill(e);
    w.add_component(e, POS, l4(), &[1, 2, 3, 4]);
    assert_eq!(w.get_component_id(POS), None);
    w.remove_component(e, POS);
    assert_eq!(w.get_component(e, POS), None);
}

#[test]
fn other_entities_keep_their_values_after_swap_remove() {
    let mut w = World::new();
    let a = w.spawn();
    let b = w.spawn();
    let c = w.spawn();
    w.add_component(a, POS, l4(), &[1, 0, 0, 0]);
    w.add_component(b, POS, l4(), &[2, 0, 0, 0]);
    w.add_component(c, POS, l4(), &[3, 0, 0, 0]);
    w.kill(a);
    assert_eq!(w.get_component(b, POS), Some(&vec![2, 0, 0, 0]));
    assert_eq!(w.get_component(c, POS), Some(&vec![3, 0, 0, 0]));
    w.remove_component(b, POS);
    assert_eq!(w.get_component(c, POS), Some(&vec![3, 0, 0, 0]));
}

#[test]
fn register_is_idempotent() {
    let mut w = World::new();
    let a = w.register(POS, l4());
    let b = w.register(VEL, l4());
    let c = w.register(POS, l4());
    assert_eq!(a, c);
    assert_ne!(a, b);
    assert_eq!(w.get_component_id(POS), Some(a));
    assert_eq!(w.get_component_id_by_type_id(VEL), Some(b));
}

#[test]
fn set_component_marks_changed_tick() {
    let mut w = World::new();
    let e = w.spawn();
    w.add_component(e, POS, l4(), &[0, 0, 0, 0]);
    let id = w.get_component_id(POS).unwrap();
    w.current_tick = 7;
    assert!(w.set_component(e, id, &[5, 5, 5, 5]));
    assert_eq!(w.get_component_by_id(e, id), Some(&vec![5, 5, 5, 5]));
    let a = w.records[e.id as usize].archetype_id as usize;
    let col = w.archetypes[a].component_to_column[id] as usize;
    assert_eq!(w.archetypes[a].columns[col].changed_ticks[0], 7);
    assert_eq!(w.archetypes[a].columns[col].added_ticks[0], 1);
    assert_eq!(w.archetypes[a].columns[col].last_changed_tick, 7);
    assert_eq!(w.archetypes[a].last_modified_tick, 7);
    let other = w.spawn();
    assert!(!w.set_component(other, id, &[1, 1, 1, 1]));
}

#[test]
fn spawn_with_places_all_components() {
    let mut w = World::new();
    let bundle = vec![
        BundleComponent { key: POS, layout: l4(), value: vec![1, 2, 3, 4] },
        BundleComponent { key: VEL, layout: l4(), value: vec![5, 6, 7, 8] },
    ];
    let e = w.spawn_with(&bundle);
    let f = w.spawn_with(&bundle);
    assert_eq!(w.get_component(e, POS), Some(&vec![1, 2, 3, 4]));
    assert_eq!(w.get_component(f, VEL), Some(&vec![5, 6, 7, 8]));
    let a = w.records[e.id as usize].archetype_id;
    assert_eq!(a, w.records[f.id as usize].archetype_id);
    assert_eq!(w.get_column_len(a), 2);
    assert_eq!(w.entity_count(), 2);
}

#[test]
fn same_signature_reuses_archetype() {
    let mut w = World::new();
    let a = w.spawn();
    let b = w.spawn();
    w.add_component(a, POS, l4(), &[0; 4]);
    w.add_component(a, VEL, l4(), &[0; 4]);
    w.add_component(b, VEL, l4(), &[0; 4]);
    w.add_component(b, POS, l4(), &[0; 4]);
    assert_eq!(w.records[a.id as usize].archetype_id, w.records[b.id as usize].archetype_id);
}

#[test]
fn get_or_create_archetype_finds_existing() {
    let mut w = World::new();
    w.register(POS, l4());
    w.register(VEL, l4());
    let x = w.get_or_create_archetype(&[0, 1]);
    let y = w.get_or_create_archetype(&[0, 1]);
    let z = w.get_or_create_archetype(&[]);
    assert_eq!(x, y);
    assert_eq!(z, 0);
}
