use vstd::prelude::*;

use crate::apply::{dedup_slots, despawn_chain, ops_chain};
use crate::archetype::{strictly_sorted, ItemLayout};
use crate::despawn::killed;
use crate::entities::next_generation;
use crate::entity::{Entity, NO_ARCHETYPE};
use crate::hierarchy::{at_most_once, other_than};
use crate::load::{archetype_loadable, archetype_loaded, column_for, holds, loadable};
use crate::query::{arch_matches, Changed, FilterTerm, Query, QueryState};
use crate::schema::lists_id;
use crate::serialize::{listed_ids, rows_view, SerializedArchetype, SerializedWorld};
use crate::world::{Op, World};

verus! {

/// After live `e` is given component type `key` with `value`, reading that
/// component of `e` gives `value`.
pub proof fn law_add_then_get(w0: &World, w1: &World, e: Entity, key: u64, value: Seq<u8>)
    requires
        w1.added_from(w0, e, key, value),
        w0.alive(e),
    ensures
        w1.alive(e),
        w1.component_id(key) matches Some(c) && w1.has(e, c) && w1.value(e, c) == value,
{
    let c = w1.component_id(key)->Some_0;
    assert(w1.has(e, c));
}

/// After component type `key` is taken from live `e`, `e` no longer has it
/// and keeps every other component with its cell.
pub proof fn law_remove_then_absent(w0: &World, w1: &World, e: Entity, key: u64, c: usize)
    requires
        w1.removed_from(w0, e, key),
        w0.alive(e),
        w0.component_id(key) == Some(c),
    ensures
        w1.alive(e),
        !w1.has(e, c),
        forall|d: usize| d != c ==> (#[trigger] w1.has(e, d) == w0.has(e, d)),
        forall|d: usize| #[trigger] w1.has(e, d) ==> w1.cell(e, d) == w0.cell(e, d),
{
}

/// Giving live `e` a component it lacked and taking it away again leaves
/// `e` with the components and cells it had.
pub proof fn law_remove_undoes_add(w0: &World, w1: &World, w2: &World, e: Entity, key: u64, value: Seq<u8>)
    requires
        w1.added_from(w0, e, key, value),
        w2.removed_from(w1, e, key),
        w0.alive(e),
        !w0.has(e, w1.component_id(key)->Some_0),
    ensures
        w2.alive(e),
        forall|d: usize| #[trigger] w2.has(e, d) == w0.has(e, d),
        forall|d: usize| #[trigger] w2.has(e, d) ==> w2.cell(e, d) == w0.cell(e, d),
{
    let c = w1.component_id(key)->Some_0;
    assert forall|d: usize| #[trigger] w2.has(e, d) == w0.has(e, d) by {
        assert(w2.has(e, d) == (w1.has(e, d) && Some(d) != w1.component_id(key)));
        assert(w1.has(e, d) == (w0.has(e, d) || d == c));
    }
    assert forall|d: usize| #[trigger] w2.has(e, d) implies w2.cell(e, d) == w0.cell(e, d) by {
        assert(w1.has(e, d));
        assert(d != c);
        assert(w0.has(e, d));
    }
}

/// After component `c` of `e` is overwritten with `value`, reading it gives
/// `value`, stamped changed at the tick of the write.
pub proof fn law_set_then_get(w0: &World, w1: &World, e: Entity, c: usize, value: Seq<u8>)
    requires
        w0.has(e, c),
        w1.has(e, c),
        w1.cell(e, c) == w0.written_cell(e, c, value, w0.current_tick),
    ensures
        w1.value(e, c) == value,
        w1.cell(e, c).2 == w0.current_tick,
        w1.cell(e, c).1 == w0.cell(e, c).1,
{
}

/// Registering a component type a second time gives back the id of the
/// first registration and changes nothing, whatever layout is passed.
pub proof fn law_register_twice(
    w0: &World,
    w1: &World,
    w2: &World,
    key: u64,
    l1: ItemLayout,
    l2: ItemLayout,
    id1: usize,
    id2: usize,
)
    requires
        w1.registered_from(w0, key, l1, id1),
        w2.registered_from(w1, key, l2, id2),
    ensures
        id2 == id1,
        *w2 == *w1,
        w2.component_id(key) == Some(id1),
{
}

/// At most one generation of a slot is live: a handle to the slot of a live
/// entity at another generation is dead.
pub proof fn law_one_generation_alive(w: &World, e: Entity, f: Entity)
    requires
        w.alive(e),
        f.id == e.id,
        f.generation != e.generation,
    ensures
        !w.alive(f),
{
}

/// Killing an entity that carries `Children` kills every child it lists,
/// and the entity itself.
pub proof fn law_kill_takes_children(w0: &World, w1: &World, e: Entity)
    requires
        w1.kill_outcome(w0, e),
        w0.alive(e),
        w0.has_children(e),
    ensures
        !w1.alive(e),
        forall|i: int| 0 <= i < w0.children_of(e).len() ==> !w1.alive(#[trigger] w0.children_of(e)[i]),
{
    assert(killed(w0, w1, e));
}

/// Every entity that a query yields is live, and holds every component the
/// query requires and none that it excludes.
pub proof fn law_query_rows_match(q: &Query)
    requires
        q.wf(),
    ensures
        forall|k: int|
            0 <= k < q.rows().len() ==> {
                &&& q.world.alive(#[trigger] q.rows()[k])
                &&& forall|i: int|
                    0 <= i < q.state.req_ids@.len() ==> q.world.has(q.rows()[k], #[trigger] q.state.req_ids@[i])
                &&& forall|i: int|
                    0 <= i < q.state.exc_ids@.len() ==> !q.world.has(q.rows()[k], #[trigger] q.state.exc_ids@[i])
            },
{
    lemma_rows_upto_match(q, q.state.matched_archetypes@.len() as int);
}

/// No entity that a query yields holds a component type that the query
/// excludes (one of the `Without` keys of its filter) and that the world
/// has registered.
pub proof fn law_query_rows_lack_excluded(q: &Query)
    requires
        q.wf(),
    ensures
        forall|k: int, j: int|
            0 <= k < q.rows().len() && 0 <= j < q.state.exclude_components@.len() && q.world.component_id(
                q.state.exclude_components@[j],
            ) is Some ==> !q.world.has(
                #[trigger] q.rows()[k],
                q.world.component_id(#[trigger] q.state.exclude_components@[j])->Some_0,
            ),
{
    if q.state.initialized {
        law_query_rows_match(q);
        assert forall|k: int, j: int|
            0 <= k < q.rows().len() && 0 <= j < q.state.exclude_components@.len() && q.world.component_id(
                q.state.exclude_components@[j],
            ) is Some implies !q.world.has(
                #[trigger] q.rows()[k],
                q.world.component_id(#[trigger] q.state.exclude_components@[j])->Some_0,
            ) by {
            let c = q.world.component_id(q.state.exclude_components@[j])->Some_0;
            assert(q.state.excluded_in(q.world, c));
            assert(q.state.exc_ids@.contains(c));
            let i = q.state.exc_ids@.index_of(c);
            assert(q.state.exc_ids@[i] == c);
        }
    } else {
        assert(q.rows() =~= Seq::<Entity>::empty());
    }
}

/// The entity in row `r` of a matching archetype is live and matches.
proof fn lemma_row_matches(q: &Query, m: int, r: int)
    requires
        q.wf(),
        q.state.initialized,
        0 <= m < q.state.matched_archetypes@.len(),
        0 <= r < q.arch(m).entities@.len(),
    ensures
        q.world.alive(q.arch(m).entities@[r]),
        arch_matches(q.world.archetype_of(q.arch(m).entities@[r]), q.state.req_ids@, q.state.exc_ids@),
{
    let w = q.world;
    let a = q.state.matched_archetypes@[m].arch_index as int;
    let x = q.arch(m).entities@[r];
    assert(w.archetypes@[a].entities@[r] == x);
    assert(w.records@[x.id as int].archetype_id == a as u32);
    assert(a < w.n_archetypes());
    assert(q.state.archetype_mapping@[a] == m);
    assert(q.state.archetype_mapping@[a] != NO_ARCHETYPE);
    assert(q.state.matches(w, a));
}

/// The rows kept from one matched archetype are live and match.
proof fn lemma_rows_kept_match(q: &Query, m: int, n: int)
    requires
        q.wf(),
        q.state.initialized,
        0 <= m < q.state.matched_archetypes@.len(),
        0 <= n <= q.arch(m).entities@.len(),
    ensures
        forall|k: int|
            0 <= k < q.rows_kept(m, n).len() ==> {
                &&& q.world.alive(#[trigger] q.rows_kept(m, n)[k])
                &&& arch_matches(q.world.archetype_of(q.rows_kept(m, n)[k]), q.state.req_ids@, q.state.exc_ids@)
            },
    decreases n,
{
    if n > 0 {
        lemma_rows_kept_match(q, m, n - 1);
        lemma_row_matches(q, m, n - 1);
        let s = q.rows_kept(m, n);
        let p = q.rows_kept(m, n - 1);
        assert forall|k: int| 0 <= k < s.len() implies {
            &&& q.world.alive(#[trigger] s[k])
            &&& arch_matches(q.world.archetype_of(s[k]), q.state.req_ids@, q.state.exc_ids@)
        } by {
            if k < p.len() {
                assert(s[k] == p[k]);
            }
        }
    }
}

/// The rows yielded from the first `j` matched archetypes are live and
/// match.
proof fn lemma_rows_upto_match(q: &Query, j: int)
    requires
        q.wf(),
        0 <= j <= q.state.matched_archetypes@.len(),
    ensures
        forall|k: int|
            0 <= k < q.rows_upto(j).len() ==> {
                &&& q.world.alive(#[trigger] q.rows_upto(j)[k])
                &&& forall|i: int|
                    0 <= i < q.state.req_ids@.len() ==> q.world.has(q.rows_upto(j)[k], #[trigger] q.state.req_ids@[i])
                &&& forall|i: int|
                    0 <= i < q.state.exc_ids@.len() ==> !q.world.has(q.rows_upto(j)[k], #[trigger] q.state.exc_ids@[i])
            },
    decreases j,
{
    if j > 0 {
        lemma_rows_upto_match(q, j - 1);
        assert(q.state.initialized);
        let p = q.rows_upto(j - 1);
        let mr = q.matched_rows(j - 1);
        let s = q.rows_upto(j);
        assert(s == p + mr);
        if q.arch_passes(j - 1) {
            lemma_rows_kept_match(q, j - 1, q.arch(j - 1).entities@.len() as int);
        }
        assert forall|k: int| 0 <= k < s.len() implies {
            &&& q.world.alive(#[trigger] s[k])
            &&& forall|i: int| 0 <= i < q.state.req_ids@.len() ==> q.world.has(s[k], #[trigger] q.state.req_ids@[i])
            &&& forall|i: int| 0 <= i < q.state.exc_ids@.len() ==> !q.world.has(s[k], #[trigger] q.state.exc_ids@[i])
        } by {
            if k < p.len() {
                assert(s[k] == p[k]);
            } else {
                assert(s[k] == mr[k - p.len()]);
                let x = s[k];
                assert(arch_matches(q.world.archetype_of(x), q.state.req_ids@, q.state.exc_ids@));
            }
        }
    }
}

/// A deferred component operation leaves every live entity live.
proof fn lemma_op_keeps_alive(w0: &World, w1: &World, key: u64, op: Op)
    requires
        w1.op_outcome(w0, key, op),
    ensures
        forall|x: Entity| #[trigger] w0.alive(x) ==> w1.alive(x),
{
    assert forall|x: Entity| #[trigger] w0.alive(x) implies w1.alive(x) by {
        match op {
            Op::Insert(e, v) => {
                if w0.alive(e) && x.id == e.id {
                    assert(x.generation == e.generation);
                } else if w0.alive(e) {
                    assert(w1.same_entity(w0, x));
                }
            },
            Op::Remove(e) => {
                if w0.alive(e) && x.id == e.id {
                    assert(x.generation == e.generation);
                } else if w0.alive(e) {
                    assert(w1.same_entity(w0, x));
                }
            },
        }
    }
}

/// Along a chain of deferred component operations, live entities stay live.
proof fn lemma_ops_chain_keeps_alive(ws: Seq<World>, ops: Seq<(u64, ItemLayout, Op)>, k: int)
    requires
        ops_chain(ws, ops),
        0 <= k < ws.len(),
    ensures
        forall|x: Entity| #[trigger] ws[0].alive(x) ==> ws[k].alive(x),
    decreases k,
{
    if k > 0 {
        lemma_ops_chain_keeps_alive(ws, ops, k - 1);
        let j = k - 1;
        assert(ws[j + 1].op_outcome(&ws[j], ops[j].0, ops[j].2));
        lemma_op_keeps_alive(&ws[j], &ws[j + 1], ops[j].0, ops[j].2);
    }
}

/// When no despawn was queued, every entity whose spawn was queued is live
/// once the commands are applied.
pub proof fn law_applied_spawns_live(w0: &World, w1: &World, e: Entity)
    requires
        w1.commands_applied(w0),
        w0.despawn_queue@.len() == 0,
        w0.spawn_queue@.contains(e),
    ensures
        w1.alive(e),
{
    let (a0, a1, a2, a3, ows, dws, sorted, counts) = choose|
        a0: World,
        a1: World,
        a2: World,
        a3: World,
        ows: Seq<World>,
        dws: Seq<World>,
        sorted: Seq<Entity>,
        counts: Seq<usize>,
    | #[trigger] w1.applied_via(w0, a0, a1, a2, a3, ows, dws, sorted, counts);
    let i = w0.spawn_queue@.index_of(e);
    assert(w0.spawn_queue@[i] == e);
    assert(a1.alive(e));
    lemma_ops_chain_keeps_alive(ows, crate::apply::flat_ops(crate::commands::queues_view(w0.typed_queues@)), ows.len() - 1);
    assert(a2.alive(e));
    assert(a3 == a2);
}

/// A signature whose components are all listed keeps them all.
proof fn lemma_listed_all(sig: Seq<usize>, ser: Seq<usize>)
    requires
        forall|i: int| 0 <= i < sig.len() ==> lists_id(ser, #[trigger] sig[i]),
    ensures
        listed_ids(sig, ser) == sig,
    decreases sig.len(),
{
    if sig.len() > 0 {
        let init = sig.drop_last();
        assert forall|i: int| 0 <= i < init.len() implies lists_id(ser, #[trigger] init[i]) by {
            assert(init[i] == sig[i]);
        }
        lemma_listed_all(init, ser);
        assert(lists_id(ser, sig[sig.len() - 1]));
        assert(init.push(sig.last()) =~= sig);
    }
}

/// The components that `ser` lists of a strictly sorted signature are
/// among the signature's, strictly sorted.
proof fn lemma_listed_sub(sig: Seq<usize>, ser: Seq<usize>)
    requires
        strictly_sorted(sig),
    ensures
        strictly_sorted(listed_ids(sig, ser)),
        forall|k: int| 0 <= k < listed_ids(sig, ser).len() ==> sig.contains(#[trigger] listed_ids(sig, ser)[k]),
    decreases sig.len(),
{
    if sig.len() > 0 {
        let init = sig.drop_last();
        lemma_listed_sub(init, ser);
        let li = listed_ids(init, ser);
        assert forall|k: int| 0 <= k < li.len() implies sig.contains(#[trigger] li[k]) by {
            let j = init.index_of(li[k]);
            assert(sig[j] == li[k]);
        }
        assert forall|k: int| 0 <= k < li.len() implies #[trigger] li[k] < sig.last() by {
            let j = init.index_of(li[k]);
            assert(sig[j] == li[k]);
        }
        if lists_id(ser, sig.last()) {
            let l = li.push(sig.last());
            assert(listed_ids(sig, ser) == l);
            assert forall|k: int| 0 <= k < l.len() implies sig.contains(#[trigger] l[k]) by {
                if k < li.len() {
                    assert(l[k] == li[k]);
                } else {
                    assert(sig[sig.len() - 1] == l[k]);
                }
            }
            assert forall|i: int, j: int| 0 <= i < j < l.len() implies l[i] < l[j] by {
                assert(l[i] == li[i]);
                if j < li.len() {
                    assert(l[j] == li[j]);
                }
            }
        }
    }
}

/// The saved form of an archetype without entities can be loaded back at
/// its index.
proof fn lemma_saved_empty_archetype(w: &World, sw: &SerializedWorld, a: int)
    requires
        w.wf(),
        w.saved_as(sw),
        0 <= a < w.n_archetypes(),
        w.archetypes@[a].entities@.len() == 0,
    ensures
        archetype_loadable(w, &sw.archetypes@[a], a),
{
    let arch = w.archetypes@[a];
    let sa = sw.archetypes@[a];
    let sig = arch.signature@;
    let cols = sa.columns@;
    let ids = listed_ids(sig, w.serializable@);
    assert(arch.wf(a, w.component_layouts@));
    lemma_listed_sub(sig, w.serializable@);
    assert forall|k: int| 0 <= k < cols.len() implies sig.contains(#[trigger] cols[k].component_id) by {
        assert(cols[k].component_id == ids[k]);
    }
    assert forall|k: int, j: int| 0 <= k < j < cols.len() implies cols[k].component_id != cols[j].component_id by {
        assert(cols[k].component_id == ids[k]);
        assert(cols[j].component_id == ids[j]);
    }
    assert forall|k: int| 0 <= k < cols.len() implies {
        &&& (#[trigger] cols[k]).data@.len() == sa.entities@.len()
        &&& forall|r: int|
            0 <= r < cols[k].data@.len() ==> (#[trigger] cols[k].data@[r])@.len()
                == w.component_layouts@[cols[k].component_id as int].size
    } by {
        let c = ids[k];
        assert(cols[k].component_id == c);
        assert(sig.contains(c));
        let i = sig.index_of(c);
        assert(arch.component_to_column@[sig[i] as int] == i);
        assert(arch.col_of(c) == i);
        let col = arch.columns@[i];
        assert(col.wf() && col.len() == arch.entities@.len());
        assert(rows_view(cols[k].data@) == col.data@);
        assert(rows_view(cols[k].data@).len() == cols[k].data@.len());
    }
    assert(sa.entities@.len() <= u32::MAX);
}

/// The saved form of archetype `a` of a world whose live entities hold
/// serializable components only can be loaded back at index `a`; when the
/// archetype holds entities, the column holding each component of its
/// signature is the one at the component's place, with the same rows.
proof fn lemma_saved_archetype(w: &World, sw: &SerializedWorld, a: int)
    requires
        w.wf(),
        w.held_serializable(),
        w.saved_as(sw),
        0 <= a < w.n_archetypes(),
    ensures
        archetype_loadable(w, &sw.archetypes@[a], a),
        w.archetypes@[a].entities@.len() > 0 ==> forall|i: int|
            0 <= i < w.archetypes@[a].signature@.len() ==> column_for(
                sw.archetypes@[a].columns@,
                #[trigger] w.archetypes@[a].signature@[i],
            ) == i,
        w.archetypes@[a].entities@.len() > 0 ==> forall|i: int|
            0 <= i < w.archetypes@[a].signature@.len() ==> rows_view(
                (#[trigger] sw.archetypes@[a].columns@[i]).data@,
            ) == w.archetypes@[a].columns@[i].data@,
{
    if w.archetypes@[a].entities@.len() == 0 {
        lemma_saved_empty_archetype(w, sw, a);
    } else {
        lemma_saved_live_archetype(w, sw, a);
    }
}

/// The saved form of archetype `a`, which holds entities, of a world whose
/// live entities hold serializable components only can be loaded back at
/// index `a`, and the column holding each component of its signature is the
/// one at the component's place, with the same rows.
proof fn lemma_saved_live_archetype(w: &World, sw: &SerializedWorld, a: int)
    requires
        w.wf(),
        w.held_serializable(),
        w.saved_as(sw),
        0 <= a < w.n_archetypes(),
        w.archetypes@[a].entities@.len() > 0,
    ensures
        archetype_loadable(w, &sw.archetypes@[a], a),
        forall|i: int|
            0 <= i < w.archetypes@[a].signature@.len() ==> column_for(
                sw.archetypes@[a].columns@,
                #[trigger] w.archetypes@[a].signature@[i],
            ) == i,
        forall|i: int|
            0 <= i < w.archetypes@[a].signature@.len() ==> rows_view(
                (#[trigger] sw.archetypes@[a].columns@[i]).data@,
            ) == w.archetypes@[a].columns@[i].data@,
{
    let arch = w.archetypes@[a];
    let sa = sw.archetypes@[a];
    let sig = arch.signature@;
    let cols = sa.columns@;
    assert(arch.wf(a, w.component_layouts@));
    assert forall|i: int| 0 <= i < sig.len() implies lists_id(w.serializable@, #[trigger] sig[i]) by {
        assert(lists_id(w.serializable@, w.archetypes@[a].signature@[i]));
    }
    lemma_listed_all(sig, w.serializable@);
    assert(cols.len() == sig.len());
    assert forall|k: int| 0 <= k < sig.len() implies {
        &&& (#[trigger] cols[k]).component_id == sig[k]
        &&& rows_view(cols[k].data@) == arch.columns@[k].data@
    } by {
        assert(arch.component_to_column@[sig[k] as int] == k);
    }
    assert(w.placement_wf());
    assert(sa.entities@.len() <= u32::MAX) by {
        assert(w.archetypes@[a].entities@.len() <= u32::MAX);
    }
    assert forall|k: int| 0 <= k < cols.len() implies sig.contains(#[trigger] cols[k].component_id) by {
        assert(sig[k] == cols[k].component_id);
    }
    assert forall|i: int| 0 <= i < sig.len() implies {
        &&& lists_id(w.serializable@, #[trigger] sig[i])
        &&& exists|k: int| holds(cols, k, sig[i])
    } by {
        assert(holds(cols, i, sig[i]));
    }
    assert forall|k: int| 0 <= k < cols.len() implies {
        &&& (#[trigger] cols[k]).data@.len() == sa.entities@.len()
        &&& forall|r: int|
            0 <= r < cols[k].data@.len() ==> (#[trigger] cols[k].data@[r])@.len()
                == w.component_layouts@[cols[k].component_id as int].size
    } by {
        let col = arch.columns@[k];
        assert(col.wf() && col.len() == arch.entities@.len());
        col.data.lemma_wf();
        assert(rows_view(cols[k].data@).len() == cols[k].data@.len());
        assert forall|r: int| 0 <= r < cols[k].data@.len() implies (#[trigger] cols[k].data@[r])@.len()
            == w.component_layouts@[cols[k].component_id as int].size by {
            assert(rows_view(cols[k].data@)[r] == cols[k].data@[r]@);
            assert(col.data@[r].len() == col.data.spec_item_layout().size);
        }
    }
    assert forall|i: int| 0 <= i < sig.len() implies column_for(cols, #[trigger] sig[i]) == i by {
        assert(holds(cols, i, sig[i]) && forall|j: int| 0 <= j < i ==> cols[j].component_id != sig[i]);
        let c = column_for(cols, sig[i]);
        assert(holds(cols, c, sig[i]));
        assert(cols[c].component_id == sig[c]);
    }
}

/// Loading what saving a world gave back into that world succeeds when every
/// component that a live entity of the world holds is serializable, and
/// gives back every entity, alive or not as it was, with the same components
/// and the same values.
pub proof fn law_save_then_load(w: &World, sw: &SerializedWorld, w2: &World)
    requires
        w.wf(),
        w.held_serializable(),
        w.saved_as(sw),
        w2.wf(),
        w2.loaded_from(w, sw),
    ensures
        loadable(w, sw),
        forall|x: Entity| #[trigger] w2.alive(x) == w.alive(x),
        forall|x: Entity, c: usize| #[trigger] w2.has(x, c) == w.has(x, c),
        forall|x: Entity, c: usize| #[trigger] w2.has(x, c) ==> w2.value(x, c) == w.value(x, c),
{
    let sas = sw.archetypes@;
    assert forall|a: int| 0 <= a < sas.len() implies archetype_loadable(w, &#[trigger] sas[a], a) by {
        lemma_saved_archetype(w, sw, a);
    }
    assert forall|a: int, b: int| 0 <= a < b < sas.len() implies sas[a].signature@ != sas[b].signature@ by {
        assert(w.archetypes@[a].signature@ != w.archetypes@[b].signature@);
    }
    assert(sas[0].signature@ == w.archetypes@[0].signature@);
    assert(loadable(w, sw));
    assert forall|x: Entity| #[trigger] w2.alive(x) == w.alive(x) by {}
    assert forall|x: Entity, c: usize| #[trigger] w2.has(x, c) == w.has(x, c) by {
        if w.alive(x) {
            let a = w.record(x.id).archetype_id as int;
            assert(archetype_loaded(&w2.archetypes@[a], &sas[a], a, sw.current_tick));
        }
    }
    assert forall|x: Entity, c: usize| #[trigger] w2.has(x, c) implies w2.value(x, c) == w.value(x, c) by {
        let a = w.record(x.id).archetype_id as int;
        let r = w.record(x.id).row as int;
        let arch = w.archetypes@[a];
        let arch2 = w2.archetypes@[a];
        assert(archetype_loaded(&arch2, &sas[a], a, sw.current_tick));
        assert(arch.wf(a, w.component_layouts@));
        assert(arch2.wf(a, w2.component_layouts@));
        let i = arch.signature@.index_of(c);
        assert(arch.component_to_column@[arch.signature@[i] as int] == i);
        assert(arch2.component_to_column@[arch2.signature@[i] as int] == i);
        lemma_saved_archetype(w, sw, a);
        assert(column_for(sas[a].columns@, arch.signature@[i]) == i);
        assert(rows_view(sas[a].columns@[i].data@) == arch.columns@[i].data@);
    }
}

/// Whether a saved archetype can be loaded depends on the registry alone.
proof fn lemma_loadable_same_registry(w: &World, v0: &World, sa: &SerializedArchetype, a: int)
    requires
        archetype_loadable(w, sa, a),
        v0.component_layouts@ == w.component_layouts@,
        v0.serializable@ == w.serializable@,
    ensures
        archetype_loadable(v0, sa, a),
{
    let sig = sa.signature@;
    let cols = sa.columns@;
    assert forall|i: int| 0 <= i < sig.len() implies #[trigger] sig[i] < v0.n_components() by {
        assert(sig[i] < w.n_components());
    }
    assert forall|i: int| 0 <= i < sig.len() && sa.entities@.len() > 0 implies {
        &&& lists_id(v0.serializable@, #[trigger] sig[i])
        &&& exists|k: int| holds(cols, k, sig[i])
    } by {
        assert(lists_id(w.serializable@, sig[i]));
        assert(exists|k: int| holds(cols, k, sig[i]));
    }
    assert forall|k: int| 0 <= k < cols.len() implies {
        &&& (#[trigger] cols[k]).data@.len() == sa.entities@.len()
        &&& forall|r: int|
            0 <= r < cols[k].data@.len() ==> (#[trigger] cols[k].data@[r])@.len()
                == v0.component_layouts@[cols[k].component_id as int].size
    } by {
        assert(cols[k].data@.len() == sa.entities@.len());
    }
}

/// Loading what saving a world gave into another world with the same
/// component registry succeeds when every component that a live entity of
/// the saved world holds is serializable, and gives back every entity of the
/// saved world, alive or not as it was, with the same components and the
/// same values.
pub proof fn law_save_then_load_into(w: &World, sw: &SerializedWorld, v0: &World, w2: &World)
    requires
        w.wf(),
        w.held_serializable(),
        w.saved_as(sw),
        v0.wf(),
        v0.component_layouts@ == w.component_layouts@,
        v0.serializable@ == w.serializable@,
        w2.wf(),
        w2.loaded_from(v0, sw),
    ensures
        loadable(v0, sw),
        forall|x: Entity| #[trigger] w2.alive(x) == w.alive(x),
        forall|x: Entity, c: usize| #[trigger] w2.has(x, c) == w.has(x, c),
        forall|x: Entity, c: usize| #[trigger] w2.has(x, c) ==> w2.value(x, c) == w.value(x, c),
{
    let sas = sw.archetypes@;
    assert forall|a: int| 0 <= a < sas.len() implies archetype_loadable(v0, &#[trigger] sas[a], a) by {
        lemma_saved_archetype(w, sw, a);
        lemma_loadable_same_registry(w, v0, &sas[a], a);
    }
    assert forall|a: int, b: int| 0 <= a < b < sas.len() implies sas[a].signature@ != sas[b].signature@ by {
        assert(w.archetypes@[a].signature@ != w.archetypes@[b].signature@);
    }
    assert(sas[0].signature@ == w.archetypes@[0].signature@);
    assert(loadable(v0, sw));
    assert forall|x: Entity| #[trigger] w2.alive(x) == w.alive(x) by {}
    assert forall|x: Entity, c: usize| #[trigger] w2.has(x, c) == w.has(x, c) by {
        if w.alive(x) {
            let a = w.record(x.id).archetype_id as int;
            assert(archetype_loaded(&w2.archetypes@[a], &sas[a], a, sw.current_tick));
        }
    }
    assert forall|x: Entity, c: usize| #[trigger] w2.has(x, c) implies w2.value(x, c) == w.value(x, c) by {
        let a = w.record(x.id).archetype_id as int;
        let arch = w.archetypes@[a];
        let arch2 = w2.archetypes@[a];
        assert(archetype_loaded(&arch2, &sas[a], a, sw.current_tick));
        assert(arch.wf(a, w.component_layouts@));
        assert(arch2.wf(a, w2.component_layouts@));
        let i = arch.signature@.index_of(c);
        assert(arch.component_to_column@[arch.signature@[i] as int] == i);
        assert(arch2.component_to_column@[arch2.signature@[i] as int] == i);
        lemma_saved_archetype(w, sw, a);
        assert(column_for(sas[a].columns@, arch.signature@[i]) == i);
        assert(rows_view(sas[a].columns@[i].data@) == arch.columns@[i].data@);
    }
}

/// A row that passes the row filters is among the rows kept from the
/// first `n`.
proof fn lemma_kept_row(q: &Query, m: int, r: int, n: int)
    requires
        0 <= r < n,
        q.row_passes(m, r),
    ensures
        q.rows_kept(m, n).contains(q.arch(m).entities@[r]),
    decreases n,
{
    let x = q.arch(m).entities@[r];
    if n - 1 == r {
        let s = q.rows_kept(m, n);
        assert(s[s.len() - 1] == x);
    } else {
        lemma_kept_row(q, m, r, n - 1);
        let prev = q.rows_kept(m, n - 1);
        let k = prev.index_of(x);
        if q.row_passes(m, n - 1) {
            assert(q.rows_kept(m, n)[k] == x);
        } else {
            assert(q.rows_kept(m, n) == prev);
        }
    }
}

/// What the query yields from a matched archetype is among what it yields
/// from the first `k`, for any later `k`.
proof fn lemma_rows_upto_has(q: &Query, m: int, k: int, x: Entity)
    requires
        0 <= m < k,
        q.matched_rows(m).contains(x),
    ensures
        q.rows_upto(k).contains(x),
    decreases k,
{
    let prev = q.rows_upto(k - 1);
    let mr = q.matched_rows(k - 1);
    assert(q.rows_upto(k) == prev + mr);
    if m == k - 1 {
        let i = mr.index_of(x);
        assert((prev + mr)[prev.len() + i] == x);
    } else {
        lemma_rows_upto_has(q, m, k - 1, x);
        let i = prev.index_of(x);
        assert((prev + mr)[i] == x);
    }
}

/// A value written after a query last ran is seen by the query's `Changed`
/// filter: a query whose only filter is `Changed` of component `key` yields
/// an entity whose `key` component was overwritten since, when the
/// entity's archetype is one the query lists.
pub proof fn law_write_seen_as_changed(w0: &World, w1: &World, e: Entity, c: usize, value: Seq<u8>, q: &Query, key: u64)
    requires
        w1.set_from(w0, e, c, value),
        q.world == w1,
        q.wf(),
        q.state.filters@ == seq![FilterTerm::Changed(Changed(key))],
        w1.component_id(key) == Some(c),
        q.listed(w1.record(e.id).archetype_id as int),
        q.last_run_tick < w0.current_tick,
    ensures
        q.rows().contains(e),
{
    let w = q.world;
    let st = q.state;
    let a = w.record(e.id).archetype_id as int;
    let r = w.record(e.id).row as int;
    let arch = w.archetypes@[a];
    assert(w.records@[e.id as int].archetype_id != NO_ARCHETYPE);
    assert(a < w.n_archetypes() && r < arch.entities@.len() && arch.entities@[r].id == e.id);
    let x = arch.entities@[r];
    assert(w.records@[x.id as int].generation == x.generation);
    assert(x == e);
    assert(st.archetype_mapping@[a] != NO_ARCHETYPE);
    let m = st.archetype_mapping@[a] as int;
    assert(st.matched_archetypes@[m].arch_index == a);
    assert(q.arch(m) == arch);
    assert(st.filter_ids@[0] == c) by {
        assert(w.component_id(crate::query::term_key(st.filters@[0])) == Some(st.filter_ids@[0]));
    }
    let ma = st.matched_archetypes@[m];
    assert(st.filter_columns@[ma.filter_cols_start + 0] == crate::query::column_of(w, a, st.filter_ids@[0]));
    assert(q.filter_col(m, 0) == arch.columns@[arch.col_of(c)]);
    assert(q.arch_passes(m)) by {
        assert forall|k: int| 0 <= k < st.filters@.len() implies match #[trigger] st.filters@[k] {
            FilterTerm::Added(_) => q.filter_col(m, k).last_added_tick > q.last_run_tick,
            FilterTerm::Changed(_) => q.filter_col(m, k).last_changed_tick > q.last_run_tick,
            _ => true,
        } by {
            assert(k == 0);
        }
    }
    assert(q.row_passes(m, r)) by {
        assert forall|k: int| 0 <= k < st.filters@.len() implies match #[trigger] st.filters@[k] {
            FilterTerm::Added(_) => q.filter_col(m, k).added_ticks@[r] == q.world.current_tick,
            FilterTerm::Changed(_) => q.filter_col(m, k).changed_ticks@[r] > q.last_run_tick,
            _ => true,
        } by {
            assert(k == 0);
            assert(w.cell(e, c).2 == w0.current_tick);
        }
    }
    lemma_kept_row(q, m, r, arch.entities@.len() as int);
    assert(q.matched_rows(m).contains(e));
    assert(m < st.matched_archetypes@.len());
    lemma_rows_upto_has(q, m, st.matched_archetypes@.len() as int, e);
}

/// A query whose cache has scanned every archetype, and whose filter
/// terms are all `With`, yields every live entity whose archetype holds the
/// required components and none of the excluded ones.
pub proof fn law_query_complete(q: &Query, e: Entity)
    requires
        q.wf(),
        q.state.initialized,
        q.state.last_archetype_count == q.world.n_archetypes(),
        forall|k: int| 0 <= k < q.state.filters@.len() ==> (#[trigger] q.state.filters@[k]) is With,
        q.world.alive(e),
        q.state.matches(q.world, q.world.record(e.id).archetype_id as int),
    ensures
        q.rows().contains(e),
{
    let w = q.world;
    let st = q.state;
    let a = w.record(e.id).archetype_id as int;
    let r = w.record(e.id).row as int;
    let arch = w.archetypes@[a];
    assert(w.records@[e.id as int].archetype_id != NO_ARCHETYPE);
    assert(a < w.n_archetypes() && r < arch.entities@.len() && arch.entities@[r].id == e.id);
    let x = arch.entities@[r];
    assert(w.records@[x.id as int].generation == x.generation);
    assert(x == e);
    assert(st.archetype_mapping@[a] != NO_ARCHETYPE);
    let m = st.archetype_mapping@[a] as int;
    assert(st.matched_archetypes@[m].arch_index == a);
    assert(q.arch(m) == arch);
    assert(q.arch_passes(m)) by {
        assert forall|k: int| 0 <= k < st.filters@.len() implies match #[trigger] st.filters@[k] {
            FilterTerm::Added(_) => q.filter_col(m, k).last_added_tick > q.last_run_tick,
            FilterTerm::Changed(_) => q.filter_col(m, k).last_changed_tick > q.last_run_tick,
            _ => true,
        } by {
            assert(st.filters@[k] is With);
        }
    }
    assert(q.row_passes(m, r)) by {
        assert forall|k: int| 0 <= k < st.filters@.len() implies match #[trigger] st.filters@[k] {
            FilterTerm::Added(_) => q.filter_col(m, k).added_ticks@[r] == q.world.current_tick,
            FilterTerm::Changed(_) => q.filter_col(m, k).changed_ticks@[r] > q.last_run_tick,
            _ => true,
        } by {
            assert(st.filters@[k] is With);
        }
    }
    lemma_kept_row(q, m, r, arch.entities@.len() as int);
    assert(q.matched_rows(m).contains(e));
    lemma_rows_upto_has(q, m, st.matched_archetypes@.len() as int, e);
}

/// A killed handle stays dead when its slot is recycled: after a kill and a
/// spawn, even one that reuses the killed slot, the killed handle is not
/// alive and the new entity's handle differs from it.
pub proof fn law_killed_stays_dead(w0: &World, w1: &World, w2: &World, e: Entity, f: Entity)
    requires
        w0.wf(),
        w1.wf(),
        w0.alive(e),
        w1.single_kill(w0, e),
        w1.next_entity_id == w0.next_entity_id,
        f == w1.next_reserved(),
        w2.alive(f),
        w2.same_except(w1, f.id),
    ensures
        !w2.alive(e),
        f != e,
{
    assert(next_generation(e.generation) != e.generation);
    assert(!w1.alive(e));
    if f.id != e.id {
        assert(w2.same_entity(w1, e));
    } else if w1.free_entities@.len() > 0 {
        let last = w1.free_entities@.len() - 1;
        assert(w1.free_entities@[last] == f);
        assert(w1.slot_free_for(f));
    } else {
        assert(w0.records@[e.id as int].archetype_id != NO_ARCHETYPE);
    }
}

/// A query cache brought up to date with `w` lists exactly the archetypes
/// of `w` that hold every required component type and none of the excluded
/// ones that `w` has registered, in increasing order, and maps each
/// archetype to its place in that list, or to no place when it does not
/// match.
pub proof fn law_cache_lists_matches(st: &QueryState, w: &World)
    requires
        w.wf(),
        st.cache_wf(w),
        st.initialized,
        st.last_archetype_count == w.n_archetypes(),
    ensures
        forall|a: int|
            0 <= a < w.n_archetypes() ==> (#[trigger] st.matches(w, a) <==> {
                &&& forall|i: int|
                    0 <= i < st.required_components@.len() ==> w.archetypes@[a].has_component(
                        w.component_id(#[trigger] st.required_components@[i])->Some_0,
                    )
                &&& forall|c: usize| #[trigger] st.excluded_in(w, c) ==> !w.archetypes@[a].has_component(c)
            }),
        forall|a: int|
            0 <= a < w.n_archetypes() ==> (st.matches(w, a) <==> exists|m: int|
                0 <= m < st.matched_archetypes@.len() && #[trigger] st.matched_archetypes@[m].arch_index == a),
        forall|a: int|
            0 <= a < w.n_archetypes() && !st.matches(w, a) ==> #[trigger] st.archetype_mapping@[a] == NO_ARCHETYPE,
        forall|m: int|
            0 <= m < st.matched_archetypes@.len() ==> {
                &&& (#[trigger] st.matched_archetypes@[m]).arch_index < w.n_archetypes()
                &&& st.archetype_mapping@[st.matched_archetypes@[m].arch_index as int] == m
            },
        forall|m: int, n: int|
            0 <= m < n < st.matched_archetypes@.len() ==> st.matched_archetypes@[m].arch_index
                < st.matched_archetypes@[n].arch_index,
{
    assert forall|a: int| 0 <= a < w.n_archetypes() implies (#[trigger] st.matches(w, a) <==> {
        &&& forall|i: int|
            0 <= i < st.required_components@.len() ==> w.archetypes@[a].has_component(
                w.component_id(#[trigger] st.required_components@[i])->Some_0,
            )
        &&& forall|c: usize| #[trigger] st.excluded_in(w, c) ==> !w.archetypes@[a].has_component(c)
    }) by {
        let arch = w.archetypes@[a];
        let req = st.req_ids@;
        let exc = st.exc_ids@;
        assert forall|i: int| 0 <= i < st.required_components@.len() implies w.component_id(
            #[trigger] st.required_components@[i],
        )->Some_0 == req[i] by {
            assert(w.component_id(st.required_components@[i]) == Some(req[i]));
        }
        if st.matches(w, a) {
            assert forall|c: usize| #[trigger] st.excluded_in(w, c) implies !arch.has_component(c) by {
                assert(exc.contains(c));
                let i = exc.index_of(c);
                assert(!arch.has_component(exc[i]));
            }
        }
        if forall|c: usize| #[trigger] st.excluded_in(w, c) ==> !arch.has_component(c) {
            assert forall|i: int| 0 <= i < exc.len() implies !arch.has_component(#[trigger] exc[i]) by {
                assert(exc.contains(exc[i]));
                assert(st.excluded_in(w, exc[i]));
            }
        }
    }
    assert forall|a: int|
        0 <= a < w.n_archetypes() implies (st.matches(w, a) <==> exists|m: int|
            0 <= m < st.matched_archetypes@.len() && #[trigger] st.matched_archetypes@[m].arch_index == a) by {
        if st.matches(w, a) {
            assert(st.archetype_mapping@[a] != NO_ARCHETYPE);
            let m = st.archetype_mapping@[a] as int;
            assert(st.matched_archetypes@[m].arch_index == a);
        }
        if exists|m: int| 0 <= m < st.matched_archetypes@.len() && #[trigger] st.matched_archetypes@[m].arch_index == a {
            let m = choose|m: int| 0 <= m < st.matched_archetypes@.len() && #[trigger] st.matched_archetypes@[m].arch_index == a;
            assert(st.archetype_mapping@[a] == m);
            assert(m < st.matched_archetypes@.len() <= st.last_archetype_count);
            assert(st.archetype_mapping@[a] != NO_ARCHETYPE);
        }
    }
}

/// The entities kept from the first `n` rows of the `m`-th matched
/// archetype are filed in that archetype below row `n`, none of them twice.
proof fn lemma_rows_kept_distinct(q: &Query, m: int, n: int)
    requires
        q.wf(),
        q.state.initialized,
        0 <= m < q.state.matched_archetypes@.len(),
        0 <= n <= q.arch(m).entities@.len(),
    ensures
        q.rows_kept(m, n).no_duplicates(),
        forall|i: int|
            0 <= i < q.rows_kept(m, n).len() ==> {
                let x = #[trigger] q.rows_kept(m, n)[i];
                &&& x.id < q.world.records@.len()
                &&& q.world.records@[x.id as int].archetype_id == q.state.matched_archetypes@[m].arch_index
                &&& q.world.records@[x.id as int].row < n
            },
    decreases n,
{
    if n > 0 {
        lemma_rows_kept_distinct(q, m, n - 1);
        let w = q.world;
        let a = q.state.matched_archetypes@[m].arch_index as int;
        assert(a < q.state.last_archetype_count <= w.n_archetypes());
        let x = q.arch(m).entities@[n - 1];
        assert(w.archetypes@[a].entities@[n - 1] == x);
        assert(w.records@[x.id as int].row == n - 1);
        let prev = q.rows_kept(m, n - 1);
        if q.row_passes(m, n - 1) {
            assert(!prev.contains(x)) by {
                if prev.contains(x) {
                    let i = prev.index_of(x);
                    assert(prev[i] == x);
                }
            }
            let cur = prev.push(x);
            assert(q.rows_kept(m, n) == cur);
            assert forall|i: int, j: int| 0 <= i < cur.len() && 0 <= j < cur.len() && i != j implies cur[i] != cur[j] by {
                if i < prev.len() && j < prev.len() {
                    assert(prev[i] != prev[j]);
                } else if i < prev.len() {
                    assert(cur[j] == x && cur[i] == prev[i]);
                } else {
                    assert(cur[i] == x && cur[j] == prev[j]);
                }
            }
            assert forall|i: int| 0 <= i < cur.len() implies {
                let y = #[trigger] cur[i];
                &&& y.id < w.records@.len()
                &&& w.records@[y.id as int].archetype_id == q.state.matched_archetypes@[m].arch_index
                &&& w.records@[y.id as int].row < n
            } by {
                if i < prev.len() {
                    assert(cur[i] == prev[i]);
                }
            }
        }
    }
}

/// The entities that the first `k` matched archetypes yield are filed in
/// those archetypes, none of them twice.
proof fn lemma_rows_upto_distinct(q: &Query, k: int)
    requires
        q.wf(),
        q.state.initialized,
        0 <= k <= q.state.matched_archetypes@.len(),
    ensures
        q.rows_upto(k).no_duplicates(),
        forall|i: int|
            0 <= i < q.rows_upto(k).len() ==> {
                let x = #[trigger] q.rows_upto(k)[i];
                &&& x.id < q.world.records@.len()
                &&& k > 0
                &&& q.world.records@[x.id as int].archetype_id <= q.state.matched_archetypes@[k - 1].arch_index
            },
    decreases k,
{
    if k > 0 {
        lemma_rows_upto_distinct(q, k - 1);
        let w = q.world;
        let m = k - 1;
        let prev = q.rows_upto(m);
        let more = q.matched_rows(m);
        let ai = q.state.matched_archetypes@[m].arch_index;
        lemma_rows_kept_distinct(q, m, q.arch(m).entities@.len() as int);
        assert(more.no_duplicates());
        assert forall|j: int| 0 <= j < more.len() implies {
            let y = #[trigger] more[j];
            &&& y.id < w.records@.len()
            &&& w.records@[y.id as int].archetype_id == ai
        } by {
            assert(q.arch_passes(m));
        }
        if m > 0 {
            assert(q.state.matched_archetypes@[m - 1].arch_index < ai);
        }
        let cur = prev + more;
        assert(q.rows_upto(k) == cur);
        assert forall|i: int, j: int| 0 <= i < cur.len() && 0 <= j < cur.len() && i != j implies cur[i] != cur[j] by {
            if i < prev.len() && j < prev.len() {
                assert(prev[i] != prev[j]);
            } else if i >= prev.len() && j >= prev.len() {
                assert(more[i - prev.len()] != more[j - prev.len()]);
            } else if i < prev.len() {
                let y = more[j - prev.len()];
                assert(cur[j] == y);
                assert(w.records@[y.id as int].archetype_id == ai);
                assert(cur[i] == prev[i]);
            } else {
                let y = more[i - prev.len()];
                assert(cur[i] == y);
                assert(w.records@[y.id as int].archetype_id == ai);
                assert(cur[j] == prev[j]);
            }
        }
        assert forall|i: int| 0 <= i < cur.len() implies {
            let x = #[trigger] cur[i];
            &&& x.id < w.records@.len()
            &&& k > 0
            &&& w.records@[x.id as int].archetype_id <= ai
        } by {
            if i < prev.len() {
                assert(cur[i] == prev[i]);
            } else {
                assert(cur[i] == more[i - prev.len()]);
            }
        }
    }
}

/// A query yields each entity at most once.
pub proof fn law_query_rows_distinct(q: &Query)
    requires
        q.wf(),
    ensures
        q.rows().no_duplicates(),
{
    if q.state.initialized {
        lemma_rows_upto_distinct(q, q.state.matched_archetypes@.len() as int);
    } else {
        assert(q.rows() =~= Seq::<Entity>::empty());
    }
}

/// Giving live `child` the live parent `p` makes `p` its parent and lists
/// `child` exactly once among `p`'s children, when that list held it at
/// most once before; a live former parent other than `p` no longer lists
/// `child`.
pub proof fn law_set_parent(w0: &World, w1: &World, child: Entity, p: Entity)
    requires
        w1.parent_set(w0, child, Some(p)),
        w0.alive(child),
        w0.alive(p),
        at_most_once(w0.children_of(p), child),
    ensures
        w1.parent_of(child) == Some(p),
        w1.children_of(p).contains(child),
        at_most_once(w1.children_of(p), child),
        forall|op: Entity|
            w0.has_parent(child) && w0.parent_of(child) == Some(op) && w0.alive(op) && w0.has_children(op) && op != p
                ==> !#[trigger] w1.children_of(op).contains(child),
{
    assert(w1.children_of(p).contains(child));
}

/// Two strictly sorted sequences holding the same elements are equal.
proof fn lemma_sorted_same_elements(s: Seq<usize>, t: Seq<usize>)
    requires
        strictly_sorted(s),
        strictly_sorted(t),
        forall|x: usize| s.contains(x) <==> t.contains(x),
    ensures
        s == t,
    decreases s.len(),
{
    if s.len() == 0 {
        if t.len() > 0 {
            assert(t.contains(t[0]));
        }
        assert(s =~= t);
    } else {
        assert(s.contains(s[0]));
        assert(t.len() > 0);
        assert(t.contains(t[0]));
        let i = t.index_of(s[0]);
        let j = s.index_of(t[0]);
        if i > 0 {
            assert(t[0] < t[i]);
            assert(s[0] <= s[j]);
        }
        assert(s[0] == t[0]);
        let s1 = s.drop_first();
        let t1 = t.drop_first();
        assert forall|x: usize| s1.contains(x) <==> t1.contains(x) by {
            if s1.contains(x) {
                let k = s1.index_of(x);
                assert(s[k + 1] == x);
                assert(s.contains(x));
                let m = t.index_of(x);
                assert(x != s[0]);
                assert(m != 0);
                assert(t1[m - 1] == x);
            }
            if t1.contains(x) {
                let k = t1.index_of(x);
                assert(t[k + 1] == x);
                assert(t.contains(x));
                let m = s.index_of(x);
                assert(x != t[0]);
                assert(m != 0);
                assert(s1[m - 1] == x);
            }
        }
        lemma_sorted_same_elements(s1, t1);
        assert(s =~= seq![s[0]] + s1);
        assert(t =~= seq![t[0]] + t1);
    }
}

/// Live entities that hold the same component types share an archetype:
/// each set of component types has one archetype at most.
pub proof fn law_same_components_same_archetype(w: &World, x: Entity, y: Entity)
    requires
        w.wf(),
        w.alive(x),
        w.alive(y),
        forall|d: usize| #[trigger] w.has(x, d) == w.has(y, d),
    ensures
        w.record(x.id).archetype_id == w.record(y.id).archetype_id,
{
    let a = w.record(x.id).archetype_id as int;
    let b = w.record(y.id).archetype_id as int;
    let sa = w.archetypes@[a].signature@;
    let sb = w.archetypes@[b].signature@;
    assert(w.archetypes@[a].wf(a, w.component_layouts@));
    assert(w.archetypes@[b].wf(b, w.component_layouts@));
    assert forall|d: usize| sa.contains(d) <==> sb.contains(d) by {
        assert(w.has(x, d) == w.has(y, d));
    }
    lemma_sorted_same_elements(sa, sb);
    if a < b {
        assert(sa != sb);
    } else if b < a {
        assert(sb != sa);
    }
}

/// Giving live `p` one child and then another lists both, in that order,
/// when `p` had no children list before.
pub proof fn law_set_parent_twice(w0: &World, w1: &World, w2: &World, c1: Entity, c2: Entity, p: Entity)
    requires
        w1.parent_set(w0, c1, Some(p)),
        w2.parent_set(w1, c2, Some(p)),
        w0.alive(p),
        c1 != c2,
        !w0.has_children(p),
    ensures
        w2.children_of(p) == seq![c1, c2],
{
    assert(w1.children_of(p).contains(c1));
    assert(w1.children_of(p) == seq![c1]);
    assert(w1.alive(p));
    assert(w1.has_children(p));
    assert(!w1.children_of(p).contains(c2)) by {
        if w1.children_of(p).contains(c2) {
            let i = w1.children_of(p).index_of(c2);
            assert(w1.children_of(p)[i] == c2);
        }
    }
    assert(w2.children_of(p).contains(c2));
    assert(w2.children_of(p) == seq![c1].push(c2));
    assert(seq![c1].push(c2) =~= seq![c1, c2]);
}

/// Giving `child` the live parent `p`, which carries a children list, keeps
/// every other entity that list held, and appends `child` at the end when
/// the list did not hold it.
pub proof fn law_set_parent_keeps_siblings(w0: &World, w1: &World, child: Entity, p: Entity, x: Entity)
    requires
        w1.parent_set(w0, child, Some(p)),
        w0.alive(p),
        w0.has_children(p),
    ensures
        x != child ==> (w1.children_of(p).contains(x) <==> w0.children_of(p).contains(x)),
        !w0.children_of(p).contains(child) ==> w1.children_of(p) == w0.children_of(p).push(child),
{
    let l0 = w0.children_of(p);
    let l1 = w1.children_of(p);
    assert(w1.children_of(p).contains(child));
    assert(l1.filter(other_than(child)) == l0.filter(other_than(child)));
    if x != child {
        if l0.contains(x) {
            let i = l0.index_of(x);
            l0.lemma_filter_contains(other_than(child), i);
            assert(l1.filter(other_than(child)).contains(x));
            l1.lemma_filter_contains_rev(other_than(child), x);
        }
        if l1.contains(x) {
            let i = l1.index_of(x);
            l1.lemma_filter_contains(other_than(child), i);
            assert(l0.filter(other_than(child)).contains(x));
            l0.lemma_filter_contains_rev(other_than(child), x);
        }
    }
}

/// Along a chain of despawns nobody comes back to life: who is alive at a
/// later step was alive at every earlier one.
proof fn lemma_despawn_chain_no_revival(ws: Seq<World>, ds: Seq<Entity>, counts: Seq<usize>, j: int, k: int, x: Entity)
    requires
        despawn_chain(ws, ds, counts),
        0 <= j <= k < ws.len(),
        ws[k].alive(x),
    ensures
        ws[j].alive(x),
    decreases k - j,
{
    if k > j {
        let i = k - 1;
        assert(ws[i + 1].despawn_step(&ws[i], ds[i], counts));
        let before = ws[i];
        let after = ws[k];
        if before.alive(ds[k - 1]) {
            let a = before.record(ds[k - 1].id).archetype_id as int;
            if after.cleared_from(&before, a) {
                if !(before.alive(x) && before.record(x.id).archetype_id == a) {
                    assert(after.same_entity(&before, x));
                }
            }
            assert(before.alive(x));
        }
        lemma_despawn_chain_no_revival(ws, ds, counts, j, k - 1, x);
    }
}

/// Despawning a live entity that is alone in its archetype kills it as
/// `kill` does: it stays dead to the end of the despawns, and so does every
/// child it lists when it carries `Children`. (Emptying the archetype at
/// once, which spares the children, is for archetypes of more than one
/// entity.)
pub proof fn law_lone_despawn_kills_children(ws: Seq<World>, ds: Seq<Entity>, counts: Seq<usize>, j: int)
    requires
        despawn_chain(ws, ds, counts),
        0 <= j < ds.len(),
        ws[j].alive(ds[j]),
        ws[j].archetype_of(ds[j]).entities@.len() == 1,
    ensures
        !ws.last().alive(ds[j]),
        ws[j].has_children(ds[j]) ==> forall|i: int|
            0 <= i < ws[j].children_of(ds[j]).len() ==> !ws.last().alive(#[trigger] ws[j].children_of(ds[j])[i]),
{
    let d = ds[j];
    let before = ws[j];
    let after = ws[j + 1];
    assert(after.despawn_step(&before, d, counts));
    assert(after.kill_outcome(&before, d));
    let n = ws.len() - 1;
    if ws.last().alive(d) {
        lemma_despawn_chain_no_revival(ws, ds, counts, j + 1, n, d);
    }
    if before.has_children(d) {
        assert forall|i: int|
            0 <= i < before.children_of(d).len() implies !ws.last().alive(#[trigger] before.children_of(d)[i]) by {
            let c = before.children_of(d)[i];
            assert(killed(&before, &after, d));
            assert(!after.alive(c));
            if ws.last().alive(c) {
                lemma_despawn_chain_no_revival(ws, ds, counts, j + 1, n, c);
            }
        }
    }
}

/// Applying the commands despawns an entity queued for despawn that is
/// live and alone in its archetype when its turn comes as `kill` does: it
/// and every child it lists when it carries `Children` are dead afterwards.
pub proof fn law_applied_lone_despawn_kills_children(
    w0: &World,
    w1: &World,
    a0: World,
    a1: World,
    a2: World,
    a3: World,
    ows: Seq<World>,
    dws: Seq<World>,
    sorted: Seq<Entity>,
    counts: Seq<usize>,
    j: int,
)
    requires
        w1.applied_via(w0, a0, a1, a2, a3, ows, dws, sorted, counts),
        w0.despawn_queue@.len() > 0,
        0 <= j < dedup_slots(sorted).len(),
        dws[j].alive(dedup_slots(sorted)[j]),
        dws[j].archetype_of(dedup_slots(sorted)[j]).entities@.len() == 1,
    ensures
        !w1.alive(dedup_slots(sorted)[j]),
        dws[j].has_children(dedup_slots(sorted)[j]) ==> forall|i: int|
            0 <= i < dws[j].children_of(dedup_slots(sorted)[j]).len() ==> !w1.alive(
                #[trigger] dws[j].children_of(dedup_slots(sorted)[j])[i],
            ),
{
    let ds = dedup_slots(sorted);
    law_lone_despawn_kills_children(dws, ds, counts, j);
    assert(dws.last() == a3);
    assert(w1.records == a3.records);
}

/// Moving `child` from its live parent `p1` to another live parent `p2`,
/// both carrying children lists, takes it out of `p1`'s list, the others
/// kept in order, and appends it to `p2`'s list when that did not hold it;
/// every other list stays as it was.
pub proof fn law_reparent_moves_child(w0: &World, w1: &World, child: Entity, p1: Entity, p2: Entity, x: Entity)
    requires
        w1.parent_set(w0, child, Some(p2)),
        w0.has_parent(child),
        w0.parent_of(child) == Some(p1),
        w0.alive(p1),
        w0.alive(p2),
        w0.has_children(p1),
        w0.has_children(p2),
        p1 != p2,
        p1.id != child.id,
        !w0.children_of(p2).contains(child),
    ensures
        w1.children_of(p1) == w0.children_of(p1).filter(other_than(child)),
        w1.children_of(p2) == w0.children_of(p2).push(child),
        x.id != child.id && x.id != p1.id && x.id != p2.id ==> w1.children_of(x) == w0.children_of(x),
{
    assert(w1.children_of(p1) == w0.children_of(p1).filter(other_than(child)));
    assert(w1.children_of(p2).contains(child));
    if x.id != child.id && x.id != p1.id && x.id != p2.id {
        assert(w1.children_of(x) == w0.children_of(x));
    }
}

} // verus!
