use artisan::archetype::ItemLayout;
use artisan::commands::{CommandQueue, Commands};
use artisan::entity::Entity;
use artisan::world::World;

const POS: u64 = 1;
const MARK: u64 = 2;

fn l4() -> ItemLayout {
    ItemLayout { size: 4, align: 4 }
}

fn l0() -> ItemLayout {
    ItemLayout { size: 0, align: 1 }
}

#[test]
fn spawns_wait_for_apply() {
    let mut w = World::new();
    let mut q = CommandQueue::new();
    let e;
    {
        let mut cmds = Commands { world: &mut w, queue: &mut q };
        e = cmds.spawn();
        cmds.flush();
    }
    assert!(!w.is_alive(e));
    assert_eq!(w.spawn_queue, vec![e]);
    w.apply_commands();
    assert!(w.is_alive(e));
    assert!(w.spawn_queue.is_empty());
    assert_eq!(w.entity_count(), 1);
}

#[test]
fn spawn_batch_takes_freed_slots_first() {
    let mut w = World::new();
    let a = w.spawn();
    let b = w.spawn();
    w.kill(a);
    w.kill(b);
    let mut q = CommandQueue::new();
    let v;
    {
        let mut cmds = Commands { world: &mut w, queue: &mut q };
        v = cmds.spawn_batch(3);
        cmds.flush();
    }
    assert_eq!(
        v,
        vec![Entity { id: 1, generation: 1 }, Entity { id: 0, generation: 1 }, Entity { id: 2, generation: 0 }]
    );
    w.apply_commands();
    assert!(v.iter().all(|e| w.is_alive(*e)));
    assert_eq!(w.entity_count(), 3);
}

#[test]
fn queued_inserts_and_removes_apply_in_order() {
    let mut w = World::new();
    let e = w.spawn();
    let f = w.spawn();
    let mut q = CommandQueue::new();
    {
        let mut cmds = Commands { world: &mut w, queue: &mut q };
        cmds.insert(e, POS, l4(), vec![1, 2, 3, 4]);
        cmds.insert(f, MARK, l0(), vec![]);
        cmds.insert(e, POS, l4(), vec![5, 6, 7, 8]);
        cmds.remove(f, MARK, l0());
        cmds.flush();
    }
    assert_eq!(w.get_component(e, POS), None);
    assert_eq!(w.typed_queues.len(), 2);
    w.apply_commands();
    assert_eq!(w.get_component(e, POS), Some(&vec![5, 6, 7, 8]));
    assert_eq!(w.get_component(f, MARK), None);
    assert_eq!(w.typed_queues.len(), 2);
    assert!(w.typed_queues.iter().all(|(_, tq)| tq.ops.is_empty()));
}

#[test]
fn queued_despawns_are_deduplicated() {
    let mut w = World::new();
    let a = w.spawn();
    let b = w.spawn();
    let c = w.spawn();
    w.add_component(c, POS, l4(), &[0; 4]);
    let mut q = CommandQueue::new();
    {
        let mut cmds = Commands { world: &mut w, queue: &mut q };
        cmds.despawn(b);
        cmds.despawn(b);
        cmds.despawn(c);
        cmds.flush();
    }
    w.apply_commands();
    assert!(w.is_alive(a));
    assert!(!w.is_alive(b));
    assert!(!w.is_alive(c));
    assert_eq!(w.free_entities.len(), 2);
    assert!(w.despawn_queue.is_empty());
}

#[test]
fn despawning_a_whole_archetype_empties_it_at_once() {
    let mut w = World::new();
    let mut ents = Vec::new();
    for _ in 0..3 {
        let e = w.spawn();
        w.add_component(e, MARK, l0(), &[]);
        ents.push(e);
    }
    let arch = w.records[ents[0].id as usize].archetype_id;
    let mut q = CommandQueue::new();
    {
        let mut cmds = Commands { world: &mut w, queue: &mut q };
        cmds.despawn(ents[2]);
        cmds.despawn(ents[0]);
        cmds.despawn(ents[1]);
        cmds.flush();
    }
    w.apply_commands();
    assert_eq!(w.get_column_len(arch), 0);
    assert!(ents.iter().all(|e| !w.is_alive(*e)));
    // the slots are freed in row order
    assert_eq!(
        w.free_entities,
        vec![
            Entity { id: ents[0].id, generation: 1 },
            Entity { id: ents[1].id, generation: 1 },
            Entity { id: ents[2].id, generation: 1 },
        ]
    );
    assert!(!w.active_archetypes.contains(&arch));
}

#[test]
fn apply_with_nothing_queued_keeps_structural_generation() {
    let mut w = World::new();
    w.spawn();
    let gen = w.structural_gen;
    w.apply_commands();
    assert_eq!(w.structural_gen, gen);
}

#[test]
fn spawn_batch_within_free_list_reuses_slots_only() {
    let mut w = World::new();
    let a = w.spawn();
    let b = w.spawn();
    let c = w.spawn();
    w.kill(a);
    w.kill(b);
    w.kill(c);
    let next = w.next_entity_id;
    let mut q = CommandQueue::new();
    let v;
    {
        let mut cmds = Commands { world: &mut w, queue: &mut q };
        v = cmds.spawn_batch(2);
        cmds.flush();
    }
    assert_eq!(v, vec![Entity { id: 2, generation: 1 }, Entity { id: 1, generation: 1 }]);
    assert_eq!(w.next_entity_id, next);
    assert_eq!(w.free_entities, vec![Entity { id: 0, generation: 1 }]);
}
