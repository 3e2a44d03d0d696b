use artisan::archetype::ItemLayout;
use artisan::query::{get_param, Added, Changed, FilterTerm, QueryState, With, Without};
use artisan::world::World;

const POS: u64 = 1;
const VEL: u64 = 2;
const MARK_A: u64 = 3;
const MARK_B: u64 = 4;

fn l4() -> ItemLayout {
    ItemLayout { size: 4, align: 4 }
}

fn l0() -> ItemLayout {
    ItemLayout { size: 0, align: 1 }
}

#[test]
fn query_yields_matching_entities_in_archetype_order() {
    let mut w = World::new();
    let a = w.spawn();
    let b = w.spawn();
    let c = w.spawn();
    w.add_component(a, POS, l4(), &[1, 0, 0, 0]);
    w.add_component(b, POS, l4(), &[2, 0, 0, 0]);
    w.add_component(b, VEL, l4(), &[3, 0, 0, 0]);
    w.add_component(c, VEL, l4(), &[4, 0, 0, 0]);
    let mut st = QueryState::new(&vec![(POS, false)], &vec![]);
    let q = get_param(&mut st, &w);
    assert_eq!(q.iter(), vec![a, b]);
    assert_eq!(q.len(), 2);
    assert!(!q.is_empty());
    assert_eq!(q.get(b), Some(vec![&vec![2, 0, 0, 0]]));
    assert_eq!(q.get(c), None);
    assert_eq!(q.get_by_id(a.id), Some(vec![&vec![1, 0, 0, 0]]));
}

#[test]
fn with_and_without_filters() {
    let mut w = World::new();
    let mut ents = Vec::new();
    for i in 0..4 {
        let e = w.spawn();
        w.add_component(e, POS, l4(), &[i, 0, 0, 0]);
        if i % 2 == 0 {
            w.add_component(e, MARK_A, l0(), &[]);
        } else {
            w.add_component(e, MARK_B, l0(), &[]);
        }
        ents.push(e);
    }
    let filters = vec![FilterTerm::With(With(MARK_A)), FilterTerm::Without(Without(MARK_B))];
    let mut st = QueryState::new(&vec![(POS, true)], &filters);
    let q = get_param(&mut st, &w);
    assert_eq!(q.iter(), vec![ents[0], ents[2]]);
}

#[test]
fn unregistered_required_type_matches_nothing() {
    let mut w = World::new();
    let e = w.spawn();
    w.add_component(e, POS, l4(), &[0; 4]);
    let mut st = QueryState::new(&vec![(POS, false)], &vec![FilterTerm::With(With(99))]);
    let q = get_param(&mut st, &w);
    assert!(q.is_empty());
    assert!(!st.initialized);
}

#[test]
fn cache_picks_up_new_archetypes() {
    let mut w = World::new();
    let a = w.spawn();
    w.add_component(a, POS, l4(), &[0; 4]);
    let mut st = QueryState::new(&vec![(POS, false)], &vec![]);
    {
        let q = get_param(&mut st, &w);
        assert_eq!(q.len(), 1);
    }
    let b = w.spawn();
    w.add_component(b, VEL, l4(), &[0; 4]);
    w.add_component(b, POS, l4(), &[0; 4]);
    let q = get_param(&mut st, &w);
    assert_eq!(q.iter(), vec![a, b]);
}

#[test]
fn changed_filter_sees_writes_after_last_run() {
    let mut w = World::new();
    let a = w.spawn();
    let b = w.spawn();
    w.add_component(a, POS, l4(), &[0; 4]);
    w.add_component(b, POS, l4(), &[0; 4]);
    w.current_tick = 1;
    let mut st = QueryState::new(&vec![(POS, false)], &vec![FilterTerm::Changed(Changed(POS))]);
    {
        // at the first run every component counts as changed
        let q = get_param(&mut st, &w);
        assert_eq!(q.len(), 2);
    }
    w.current_tick = 2;
    let id = w.get_component_id(POS).unwrap();
    assert!(w.set_component(b, id, &[1, 1, 1, 1]));
    let q = get_param(&mut st, &w);
    assert_eq!(q.last_run_tick, 1);
    assert_eq!(q.iter(), vec![b]);
}

#[test]
fn added_filter_sees_components_added_this_tick() {
    let mut w = World::new();
    w.current_tick = 3;
    let a = w.spawn();
    w.add_component(a, POS, l4(), &[0; 4]);
    w.current_tick = 4;
    let b = w.spawn();
    w.add_component(b, POS, l4(), &[0; 4]);
    let mut st = QueryState::new(&vec![(POS, false)], &vec![FilterTerm::Added(Added(POS))]);
    let q = get_param(&mut st, &w);
    assert_eq!(q.iter(), vec![b]);
}

#[test]
fn query_access_splits_reads_and_writes() {
    let st = QueryState::new(&vec![(POS, true), (VEL, false)], &vec![]);
    let acc = st.access();
    assert!(acc.writes.contains(&POS));
    assert!(acc.reads.contains(&VEL));
    assert!(!acc.reads.contains(&POS));
    assert_eq!(acc.reads.len(), 1);
    assert_eq!(acc.writes.len(), 1);
}

#[test]
fn query_yields_each_entity_once_and_cache_lists_matching_archetypes() {
    let mut w = World::new();
    let mut ents = Vec::new();
    for i in 0..6u8 {
        let e = w.spawn();
        w.add_component(e, POS, l4(), &[i, 0, 0, 0]);
        if i % 3 == 0 {
            w.add_component(e, VEL, l4(), &[i, 1, 0, 0]);
        }
        if i % 3 == 1 {
            w.add_component(e, MARK_B, l0(), &[]);
        }
        ents.push(e);
    }
    let filters = vec![FilterTerm::Without(Without(MARK_B))];
    let mut st = QueryState::new(&vec![(POS, false)], &filters);
    let rows = {
        let q = get_param(&mut st, &w);
        q.iter()
    };
    let mut sorted = rows.clone();
    sorted.sort_by_key(|e| e.id);
    sorted.dedup();
    assert_eq!(sorted.len(), rows.len());
    assert_eq!(rows.len(), 4);
    assert!(st.initialized);
    assert_eq!(st.last_archetype_count, w.archetypes.len());
    assert_eq!(st.last_structural_gen, w.structural_gen);
    let listed: Vec<u32> = st.matched_archetypes.iter().map(|m| m.arch_index).collect();
    let pos = w.get_component_id(POS).unwrap();
    let mark = w.get_component_id(MARK_B).unwrap();
    let expected: Vec<u32> = (0..w.archetypes.len())
        .filter(|&a| {
            let sig = &w.archetypes[a].signature;
            sig.contains(&pos) && !sig.contains(&mark)
        })
        .map(|a| a as u32)
        .collect();
    assert_eq!(listed, expected);
    for a in 0..w.archetypes.len() {
        match listed.iter().position(|&x| x as usize == a) {
            Some(m) => assert_eq!(st.archetype_mapping[a] as usize, m),
            None => assert_eq!(st.archetype_mapping[a], u32::MAX),
        }
    }
}
