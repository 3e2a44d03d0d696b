use artisan::archetype::ItemLayout;
use artisan::bench::core_cases;
use artisan::component::Children;
use artisan::entity::Entity;
use artisan::fair::fair_cases;
use artisan::world::{BundleComponent, World};

const NUM: u64 = 9;

fn l4() -> ItemLayout {
    ItemLayout { size: 4, align: 4 }
}

fn spawn_num(w: &mut World, v: u8) -> Entity {
    w.spawn_with(&vec![BundleComponent { key: NUM, layout: l4(), value: vec![v, 0, 0, 0] }])
}

#[test]
fn killed_slot_is_recycled_with_next_generation() {
    let mut w = World::new();
    let e0 = w.spawn();
    let e1 = w.spawn();
    assert_eq!(e0, Entity { id: 0, generation: 0 });
    assert_eq!(e1, Entity { id: 1, generation: 0 });
    let g = w.structural_gen;
    w.kill(e0);
    assert_eq!(w.structural_gen, g + 1);
    assert_eq!(w.free_entities, vec![Entity { id: 0, generation: 1 }]);
    let r = w.spawn();
    assert_eq!(r, Entity { id: 0, generation: 1 });
    assert!(!w.is_alive(e0));
    assert!(w.is_alive(e1));
    assert!(w.is_alive(r));
    assert_eq!(w.entity_count(), 2);
    assert_eq!(w.structural_gen, g + 2);
}

#[test]
fn spawn_and_kill_loops_keep_count() {
    let mut w = World::new();
    let ents: Vec<Entity> = (0..3).map(|_| w.spawn()).collect();
    assert_eq!(w.entity_count(), 3);
    for &e in &ents {
        w.kill(e);
    }
    assert_eq!(w.entity_count(), 0);
    assert!(ents.iter().all(|&e| !w.is_alive(e)));
}

#[test]
fn kill_moves_last_row_into_place() {
    let mut w = World::new();
    let a = spawn_num(&mut w, 1);
    let b = spawn_num(&mut w, 2);
    let c = spawn_num(&mut w, 3);
    w.kill(a);
    assert_eq!(w.get_component(a, NUM), None);
    assert_eq!(w.get_component(b, NUM), Some(&vec![2, 0, 0, 0]));
    assert_eq!(w.get_component(c, NUM), Some(&vec![3, 0, 0, 0]));
    assert_eq!(w.records[c.id as usize].row, 0);
    assert_eq!(w.records[b.id as usize].row, 1);
    assert_eq!(w.entity_count(), 2);
}

#[test]
fn add_component_raw_moves_or_overwrites() {
    let mut w = World::new();
    let e0 = w.spawn();
    let e1 = w.spawn();
    w.add_component(e0, NUM, l4(), &[5, 0, 0, 0]);
    let id = w.get_component_id(NUM).unwrap();
    let g = w.structural_gen;
    w.add_component_raw(e1, id, &[7, 0, 0, 0]);
    assert_eq!(w.structural_gen, g + 1);
    assert_eq!(w.get_component(e0, NUM), Some(&vec![5, 0, 0, 0]));
    assert_eq!(w.get_component(e1, NUM), Some(&vec![7, 0, 0, 0]));
    assert_eq!(w.records[e0.id as usize].row, 0);
    assert_eq!(w.records[e1.id as usize].row, 1);
    assert!(w.archetypes[0].entities.is_empty());
    assert_eq!(w.entity_count(), 2);
    let rec = w.records[e1.id as usize];
    w.add_component_raw(e1, id, &[8, 0, 0, 0]);
    assert_eq!(w.records[e1.id as usize], rec);
    assert_eq!(w.structural_gen, g + 1);
}

#[test]
fn remove_component_advances_generation_only_when_present() {
    let mut w = World::new();
    let e = w.spawn();
    let f = w.spawn();
    w.add_component(e, NUM, l4(), &[1, 0, 0, 0]);
    let g = w.structural_gen;
    w.remove_component(f, NUM);
    assert_eq!(w.structural_gen, g);
    w.remove_component(e, NUM);
    assert_eq!(w.structural_gen, g + 1);
    assert_eq!(w.get_component(e, NUM), None);
}

#[test]
fn set_parent_lists_child_once() {
    let mut w = World::new();
    let p = w.spawn();
    let c = w.spawn();
    w.set_parent(c, Some(p));
    w.set_parent(c, Some(p));
    match w.get_children(p) {
        Some(Children(v)) => assert_eq!(v, vec![c]),
        None => panic!("parent has no children"),
    }
}

#[test]
fn core_case_names_follow_ids() {
    let cases = core_cases();
    assert_eq!(cases[0].spec.name, "1. Entity Spawn");
    assert_eq!(cases[10].spec.name, "11. Bulk Structural Churn");
    for (i, c) in cases.iter().enumerate() {
        assert!(c.spec.name.starts_with(&format!("{}. ", i + 1)));
    }
}

#[test]
fn fair_case_ids_and_groups() {
    let cases = fair_cases();
    let ids: Vec<&str> = cases.iter().map(|c| c.spec.id).collect();
    assert_eq!(&ids[0..5], &["A1", "A2", "A3", "A4", "A5"]);
    assert_eq!(cases[20].spec.id, "B1");
    assert_eq!(cases[20].spec.group, "Topology");
    assert_eq!(cases[33].spec.id, "G1");
    assert_eq!(cases[33].spec.group, "Scheduling");
}

#[test]
fn same_bundle_spawned_three_times() {
    let mut w = World::new();
    let bundle = vec![
        BundleComponent { key: NUM, layout: l4(), value: vec![0, 0, 0, 0] },
        BundleComponent { key: NUM + 1, layout: l4(), value: vec![1, 1, 1, 1] },
    ];
    let a = w.spawn_with(&bundle);
    let layouts = w.component_layouts.clone();
    let b = w.spawn_with(&bundle);
    let c = w.spawn_with(&bundle);
    assert_eq!(w.component_layouts, layouts);
    assert_eq!(w.entity_count(), 3);
    assert!(a != b && b != c && a != c);
    assert!(w.is_alive(a) && w.is_alive(b) && w.is_alive(c));
    let t = w.records[c.id as usize].archetype_id as usize;
    assert_eq!(w.records[c.id as usize].row as usize, w.archetypes[t].entities.len() - 1);
    assert_eq!(w.archetypes[t].entities, vec![a, b, c]);
}

#[test]
fn add_component_of_new_type_takes_next_id() {
    let mut w = World::new();
    let e = w.spawn();
    w.add_component(e, NUM, l4(), &[1, 0, 0, 0]);
    let n = w.component_layouts.len();
    let g = w.structural_gen;
    w.add_component(e, NUM + 7, l4(), &[2, 0, 0, 0]);
    assert_eq!(w.get_component_id(NUM + 7), Some(n));
    assert_eq!(w.component_layouts.len(), n + 1);
    assert_eq!(w.structural_gen, g + 1);
    let t = w.records[e.id as usize].archetype_id as usize;
    assert_eq!(w.records[e.id as usize].row as usize, w.archetypes[t].entities.len() - 1);
    assert_eq!(w.get_component(e, NUM), Some(&vec![1, 0, 0, 0]));
    assert_eq!(w.get_component(e, NUM + 7), Some(&vec![2, 0, 0, 0]));
}

#[test]
fn register_twice_gives_first_id() {
    let mut w = World::new();
    let a = w.register(NUM, l4());
    let n = w.component_layouts.len();
    let b = w.register(NUM, ItemLayout { size: 8, align: 8 });
    assert_eq!(a, b);
    assert_eq!(w.component_layouts.len(), n);
    assert_eq!(w.component_layouts[a], l4());
}

#[test]
fn structural_changes_stamp_the_archetypes_they_touch() {
    let mut w = World::new();
    w.current_tick = 5;
    let e = w.spawn_with(&vec![]);
    assert_eq!(w.records[e.id as usize].archetype_id, 0);
    assert_eq!(w.archetypes[0].last_modified_tick, 5);
    w.current_tick = 6;
    w.add_component(e, NUM, l4(), &[1, 0, 0, 0]);
    let t = w.records[e.id as usize].archetype_id as usize;
    assert_eq!(w.archetypes[t].last_modified_tick, 6);
    assert_eq!(w.archetypes[0].last_modified_tick, 6);
    assert_eq!(w.archetypes[t].columns[0].last_added_tick, 6);
    assert_eq!(w.archetypes[t].columns[0].last_changed_tick, 6);
    w.current_tick = 7;
    w.remove_component(e, NUM);
    assert_eq!(w.records[e.id as usize].archetype_id, 0);
    assert_eq!(w.archetypes[0].last_modified_tick, 7);
    assert_eq!(w.archetypes[t].last_modified_tick, 7);
    let f = spawn_num(&mut w, 3);
    w.current_tick = 8;
    w.kill(f);
    assert_eq!(w.archetypes[t].last_modified_tick, 8);
    assert!(w.archetypes[t].entities.is_empty());
}

#[test]
fn same_components_share_an_archetype() {
    let mut w = World::new();
    let a = w.spawn();
    w.add_component(a, NUM + 1, l4(), &[2, 0, 0, 0]);
    w.add_component(a, NUM, l4(), &[1, 0, 0, 0]);
    let b = w.spawn_with(&vec![
        BundleComponent { key: NUM, layout: l4(), value: vec![3, 0, 0, 0] },
        BundleComponent { key: NUM + 1, layout: l4(), value: vec![4, 0, 0, 0] },
    ]);
    assert_eq!(w.records[a.id as usize].archetype_id, w.records[b.id as usize].archetype_id);
}
