use artisan::markers::{add_marker_bits, add_marker_by_index, MARKER_KEYS};
use artisan::world::World;

#[test]
fn marker_by_index_caps_at_last() {
    let mut w = World::new();
    let e = w.spawn();
    add_marker_by_index(&mut w, e, 3);
    add_marker_by_index(&mut w, e, 40);
    assert!(w.get_component(e, MARKER_KEYS + 3).is_some());
    assert!(w.get_component(e, MARKER_KEYS + 25).is_some());
    assert!(w.get_component(e, MARKER_KEYS + 24).is_none());
    assert_eq!(w.get_component(e, MARKER_KEYS + 3), Some(&Vec::new()));
}

#[test]
fn marker_bits_follow_low_byte() {
    let mut w = World::new();
    let e = w.spawn();
    add_marker_bits(&mut w, e, 0b1_0000_0101);
    for k in 0..8u64 {
        let want = k == 0 || k == 2;
        assert_eq!(w.get_component(e, MARKER_KEYS + k).is_some(), want);
    }
    assert!(w.get_component(e, MARKER_KEYS + 8).is_none());
}

#[test]
fn marker_bits_on_dead_entity_change_nothing() {
    let mut w = World::new();
    let e = w.spawn();
    w.kill(e);
    let n = w.archetypes.len();
    add_marker_bits(&mut w, e, 0xff);
    assert_eq!(w.archetypes.len(), n);
    assert!(w.get_component_id(MARKER_KEYS).is_none());
}
