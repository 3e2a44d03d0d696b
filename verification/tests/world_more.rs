use artisan::archetype::ItemLayout;
use artisan::component::{Children, Parent};
use artisan::world::World;

const POS: u64 = 1;
const HEALTH: u64 = 2;

fn l4() -> ItemLayout {
    ItemLayout { size: 4, align: 4 }
}

#[test]
fn set_parent_links_both_sides() {
    let mut w = World::new();
    let p = w.spawn();
    let c = w.spawn();
    w.set_parent(c, Some(p));
    match w.get_parent(c) {
        Some(Parent(x)) => assert_eq!(x, p),
        None => panic!("child has no parent"),
    }
    match w.get_children(p) {
        Some(Children(v)) => assert_eq!(v, vec![c]),
        None => panic!("parent has no children"),
    }
    assert!(w.get_parent(p).is_none());
}

#[test]
fn reparenting_moves_the_child() {
    let mut w = World::new();
    let p1 = w.spawn();
    let p2 = w.spawn();
    let c = w.spawn();
    w.set_parent(c, Some(p1));
    w.set_parent(c, Some(p2));
    match w.get_children(p1) {
        Some(Children(v)) => assert!(v.is_empty()),
        None => {}
    }
    match w.get_children(p2) {
        Some(Children(v)) => assert_eq!(v, vec![c]),
        None => panic!("new parent lists no children"),
    }
    w.set_parent(c, None);
    assert!(w.get_parent(c).is_none());
}

#[test]
fn kill_takes_descendants() {
    let mut w = World::new();
    let root = w.spawn();
    let mid = w.spawn();
    let leaf = w.spawn();
    let other = w.spawn();
    w.set_parent(mid, Some(root));
    w.set_parent(leaf, Some(mid));
    w.kill(root);
    assert!(!w.is_alive(root));
    assert!(!w.is_alive(mid));
    assert!(!w.is_alive(leaf));
    assert!(w.is_alive(other));
    assert_eq!(w.entity_count(), 1);
}

#[test]
fn set_parent_on_dead_child_changes_nothing() {
    let mut w = World::new();
    let p = w.spawn();
    let c = w.spawn();
    w.kill(c);
    w.set_parent(c, Some(p));
    assert!(w.get_children(p).is_none());
}

#[test]
fn resources_insert_get_replace_remove() {
    let mut w = World::new();
    assert_eq!(w.get_resource(7), None);
    w.insert_resource(7, vec![1, 2]);
    w.insert_resource(3, vec![9]);
    assert_eq!(w.get_resource(7), Some(&vec![1, 2]));
    assert_eq!(w.get_resource(3), Some(&vec![9]));
    w.insert_resource(7, vec![4]);
    assert_eq!(w.get_resource(7), Some(&vec![4]));
    w.remove_resource(7);
    assert_eq!(w.get_resource(7), None);
    assert_eq!(w.get_resource(3), Some(&vec![9]));
    w.insert_resource(7, vec![5]);
    assert_eq!(w.get_resource(7), Some(&vec![5]));
    assert_eq!(w.resources.len(), 2);
}

#[test]
fn register_dynamic_by_name() {
    let mut w = World::new();
    let a = w.register_dynamic("velocity", 12, 4);
    let b = w.register_dynamic("mass", 4, 0);
    let c = w.register_dynamic("velocity", 99, 8);
    assert_eq!(a, c);
    assert_ne!(a, b);
    assert_eq!(w.component_layouts[a], ItemLayout { size: 12, align: 4 });
    assert_eq!(w.component_layouts[b], ItemLayout { size: 4, align: 1 });
    let d = w.register_dynamic("odd", 8, 3);
    assert_eq!(w.component_layouts[d], ItemLayout { size: 0, align: 1 });
}

#[test]
fn register_schema_once_per_component() {
    let mut w = World::new();
    let id = w.register_schema(POS, l4(), "position", 1, 3);
    let again = w.register_schema(POS, l4(), "other", 2, 2);
    assert_eq!(id, again);
    assert_eq!(w.schemas.len(), 1);
    assert_eq!(w.schemas[0].name, "position".to_string());
    assert_eq!(w.schemas[0].elements, 3);
}

#[test]
fn register_serializable_lists_each_id_once() {
    let mut w = World::new();
    let a = w.register_serializable(POS, l4());
    let b = w.register_serializable(POS, l4());
    assert_eq!(a, b);
    assert_eq!(w.serializable, vec![a]);
}

#[test]
fn column_accessors() {
    let mut w = World::new();
    let e = w.spawn();
    w.add_component(e, POS, l4(), &[1, 2, 3, 4]);
    let a = w.records[e.id as usize].archetype_id;
    let rows = w.get_column_ptr(POS, a).unwrap();
    assert_eq!(rows, &[vec![1, 2, 3, 4]][..]);
    assert_eq!(w.get_column_capacity(POS, a), Some(8));
    assert_eq!(w.get_column_ptr(HEALTH, a), None);
    assert_eq!(w.get_column_capacity(POS, 0), None);
    assert_eq!(w.get_column_len(a), 1);
    assert_eq!(w.get_column_len(999), 0);
}

#[test]
fn save_keeps_serializable_columns_only() {
    let mut w = World::new();
    w.register_serializable(POS, l4());
    let e = w.spawn();
    w.add_component(e, POS, l4(), &[1, 2, 3, 4]);
    w.add_component(e, HEALTH, l4(), &[7, 7, 7, 7]);
    let sw = w.save_to_serialized();
    assert_eq!(sw.archetypes.len(), w.archetypes.len());
    let a = w.records[e.id as usize].archetype_id as usize;
    let sa = &sw.archetypes[a];
    assert_eq!(sa.entities, vec![e]);
    assert_eq!(sa.columns.len(), 1);
    assert_eq!(sa.columns[0].component_id, w.get_component_id(POS).unwrap());
    assert_eq!(sa.columns[0].data, vec![vec![1, 2, 3, 4]]);
    assert_eq!(sw.records, w.records);
}
