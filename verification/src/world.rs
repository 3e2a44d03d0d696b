use vstd::prelude::*;

use crate::archetype::{Archetype, Column, ItemLayout, NO_COLUMN, strictly_sorted};
use crate::entity::{Entity, EntityRecord, NO_ARCHETYPE};

verus! {

/// A deferred structural change of one component type.
pub enum Op {
    Insert(Entity, Vec<u8>),
    Remove(Entity),
}

/// The deferred changes of one component type, in the order they were
/// queued.
pub struct TypedQueue {
    pub layout: ItemLayout,
    pub ops: Vec<Op>,
}

/// How a component is laid out for a host that reads its column directly.
pub struct ComponentSchema {
    pub id: usize,
    pub name: String,
    pub array_type: u32,
    pub elements: u32,
    pub fields: Vec<String>,
}

/// One component of a bundle spawned at once: its type, layout and bytes.
pub struct BundleComponent {
    pub key: u64,
    pub layout: ItemLayout,
    pub value: Vec<u8>,
}

/// The parent and children that the hierarchy records for one entity slot.
///
/// The `Parent` and `Children` components of an entity carry no bytes of
/// their own: they mark the entity, and its links hold what they stand for.
pub struct Links {
    pub parent: Option<Entity>,
    pub children: Vec<Entity>,
}

/// The component type under which the hierarchy files an entity's parent.
pub const PARENT_KEY: u64 = 0xffff_ffff_ffff_fffe;

/// The component type under which the hierarchy files an entity's children.
pub const CHILDREN_KEY: u64 = 0xffff_ffff_ffff_ffff;

/// The entity-component store: entity slots with their generations, the
/// archetypes that hold live entities row by row, the component registry,
/// the resources, and the queues of deferred commands.
pub struct World {
    pub current_tick: u32,
    pub structural_gen: u64,
    pub next_entity_id: u32,
    pub free_entities: Vec<Entity>,
    pub records: Vec<EntityRecord>,
    pub archetypes: Vec<Archetype>,
    pub active_archetypes: Vec<u32>,
    pub resource_ids: Vec<(u64, usize)>,
    pub resources: Vec<Option<Vec<u8>>>,
    pub component_ids: Vec<(u64, usize)>,
    pub component_layouts: Vec<ItemLayout>,
    pub dynamic_components: Vec<(String, usize)>,
    pub schemas: Vec<ComponentSchema>,
    pub serializable: Vec<usize>,
    pub spawn_queue: Vec<Entity>,
    pub despawn_queue: Vec<Entity>,
    pub typed_queues: Vec<(u64, TypedQueue)>,
    pub links: Vec<Links>,
}

/// The keys of `s` strictly increase.
pub open spec fn keys_sorted(s: Seq<(u64, usize)>) -> bool {
    forall|i: int, j: int| 0 <= i < j < s.len() ==> s[i].0 < s[j].0
}

/// No two entries of `s` carry the same value.
pub open spec fn values_distinct(s: Seq<(u64, usize)>) -> bool {
    forall|i: int, j: int| 0 <= i < j < s.len() ==> s[i].1 != s[j].1
}

/// The value that `s` files under `key`, if any.
pub open spec fn lookup(s: Seq<(u64, usize)>, key: u64) -> Option<usize> {
    if exists|i: int| 0 <= i < s.len() && #[trigger] s[i].0 == key {
        Some(s[choose|i: int| 0 <= i < s.len() && #[trigger] s[i].0 == key].1)
    } else {
        None
    }
}

/// No two entities of `s` share a slot.
pub open spec fn ids_distinct(s: Seq<Entity>) -> bool {
    forall|i: int, j: int| 0 <= i < j < s.len() ==> s[i].id != s[j].id
}

/// Some entity of `s` uses slot `id`.
pub open spec fn has_id(s: Seq<Entity>, id: u32) -> bool {
    exists|i: int| 0 <= i < s.len() && (#[trigger] s[i]).id == id
}

/// The cell of one component of one entity: its bytes, the tick it was
/// added and the tick of its last change.
pub type Cell = (Seq<u8>, u32, u32);

impl World {
    pub open spec fn n_components(&self) -> nat {
        self.component_layouts@.len()
    }

    pub open spec fn n_archetypes(&self) -> nat {
        self.archetypes@.len()
    }

    /// The id registered for component type `key`.
    pub open spec fn component_id(&self, key: u64) -> Option<usize> {
        lookup(self.component_ids@, key)
    }

    pub open spec fn record(&self, id: u32) -> EntityRecord {
        self.records@[id as int]
    }

    /// The handle `e` names a live entity.
    pub open spec fn alive(&self, e: Entity) -> bool {
        &&& e.id < self.records@.len()
        &&& self.record(e.id).generation == e.generation
        &&& self.record(e.id).archetype_id != NO_ARCHETYPE
    }

    /// The archetype that holds live entity `e`.
    pub open spec fn archetype_of(&self, e: Entity) -> Archetype {
        self.archetypes@[self.record(e.id).archetype_id as int]
    }

    /// Live entity `e` has component `c`.
    pub open spec fn has(&self, e: Entity, c: usize) -> bool {
        self.alive(e) && self.archetype_of(e).has_component(c)
    }

    /// The cell of component `c` of live entity `e`.
    pub open spec fn cell(&self, e: Entity, c: usize) -> Cell {
        let a = self.archetype_of(e);
        let i = a.col_of(c);
        let r = self.record(e.id).row as int;
        (a.columns@[i].data@[r], a.columns@[i].added_ticks@[r], a.columns@[i].changed_ticks@[r])
    }

    /// The bytes of component `c` of live entity `e`.
    pub open spec fn value(&self, e: Entity, c: usize) -> Seq<u8> {
        self.cell(e, c).0
    }

    /// Handle `x` is in `self` what it is in `other`: alive or not, with the
    /// same components and cells.
    pub open spec fn same_entity(&self, other: &World, x: Entity) -> bool {
        &&& self.alive(x) == other.alive(x)
        &&& forall|c: usize| #[trigger] self.has(x, c) == other.has(x, c)
        &&& forall|c: usize| #[trigger] self.has(x, c) ==> self.cell(x, c) == other.cell(x, c)
    }

    /// Every handle whose slot is not `id` is unchanged between `self` and
    /// `other`.
    pub open spec fn same_except(&self, other: &World, id: u32) -> bool {
        forall|x: Entity| x.id != id ==> #[trigger] self.same_entity(other, x)
    }

    /// Every handle is unchanged between `self` and `other`.
    pub open spec fn same_entities(&self, other: &World) -> bool {
        forall|x: Entity| #[trigger] self.same_entity(other, x)
    }

    /// The component registry: keys sorted, ids distinct and in range, and
    /// every layout valid.
    pub open spec fn registry_wf(&self) -> bool {
        &&& keys_sorted(self.component_ids@)
        &&& values_distinct(self.component_ids@)
        &&& forall|i: int|
            0 <= i < self.component_ids@.len() ==> (#[trigger] self.component_ids@[i]).1
                < self.n_components()
        &&& forall|i: int|
            0 <= i < self.dynamic_components@.len() ==> (#[trigger] self.dynamic_components@[i]).1
                < self.n_components()
        &&& forall|c: int| 0 <= c < self.n_components() ==> (#[trigger] self.component_layouts@[c]).valid()
        &&& self.n_components() < u32::MAX
    }

    /// The archetypes: each sound at its index, the first one empty of
    /// components, no two with one signature, and the cached moves leading
    /// to the archetype with one component more or less.
    pub open spec fn archetypes_wf(&self) -> bool {
        &&& 1 <= self.n_archetypes() < u32::MAX
        &&& self.archetypes@[0].signature@.len() == 0
        &&& forall|a: int|
            0 <= a < self.n_archetypes() ==> (#[trigger] self.archetypes@[a]).wf(
                a,
                self.component_layouts@,
            )
        &&& forall|a: int, b: int|
            0 <= a < b < self.n_archetypes() ==> self.archetypes@[a].signature@
                != self.archetypes@[b].signature@
        &&& forall|a: int| 0 <= a < self.n_archetypes() ==> #[trigger] self.edges_wf(a)
    }

    /// The cached moves out of archetype `a`.
    pub open spec fn edges_wf(&self, a: int) -> bool {
        let arch = self.archetypes@[a];
        &&& forall|i: int, j: int|
            0 <= i < j < arch.add_edges@.len() ==> arch.add_edges@[i].0 < arch.add_edges@[j].0
        &&& forall|i: int, j: int|
            0 <= i < j < arch.remove_edges@.len() ==> arch.remove_edges@[i].0
                < arch.remove_edges@[j].0
        &&& forall|i: int|
            0 <= i < arch.add_edges@.len() ==> {
                let (c, t) = #[trigger] arch.add_edges@[i];
                &&& c < self.n_components()
                &&& t < self.n_archetypes()
                &&& !arch.has_component(c)
                &&& self.archetypes@[t as int].has_component(c)
                &&& self.archetypes@[t as int].col_of(c) <= arch.signature@.len()
                &&& self.archetypes@[t as int].signature@ == arch.signature@.insert(
                    self.archetypes@[t as int].col_of(c),
                    c,
                )
            }
        &&& forall|i: int|
            0 <= i < arch.remove_edges@.len() ==> {
                let (c, t) = #[trigger] arch.remove_edges@[i];
                &&& c < self.n_components()
                &&& t < self.n_archetypes()
                &&& arch.has_component(c)
                &&& self.archetypes@[t as int].signature@ == arch.signature@.remove(
                    arch.col_of(c),
                )
            }
    }

    /// Rows and slot records agree: the record of the entity in row `r` of
    /// archetype `a` points at `(a, r)`, and every occupied record points at
    /// a row holding its slot.
    pub open spec fn placement_wf(&self) -> bool {
        &&& forall|a: int|
            0 <= a < self.n_archetypes() ==> (#[trigger] self.archetypes@[a]).entities@.len()
                <= u32::MAX
        &&& forall|a: int, r: int|
            0 <= a < self.n_archetypes() && 0 <= r < self.archetypes@[a].entities@.len() ==> {
                let e = #[trigger] self.archetypes@[a].entities@[r];
                &&& e.id < self.records@.len()
                &&& self.records@[e.id as int] == (EntityRecord {
                    generation: e.generation,
                    archetype_id: a as u32,
                    row: r as u32,
                })
            }
        &&& forall|id: int|
            0 <= id < self.records@.len() && (#[trigger] self.records@[id]).archetype_id
                != NO_ARCHETYPE ==> {
                let rec = self.records@[id];
                &&& rec.archetype_id < self.n_archetypes()
                &&& rec.row < self.archetypes@[rec.archetype_id as int].entities@.len()
                &&& self.archetypes@[rec.archetype_id as int].entities@[rec.row as int].id == id
            }
    }

    /// `active_archetypes` lists, once each, the archetypes holding entities.
    pub open spec fn active_wf(&self) -> bool {
        &&& forall|i: int, j: int|
            0 <= i < j < self.active_archetypes@.len() ==> self.active_archetypes@[i]
                != self.active_archetypes@[j]
        &&& forall|i: int|
            0 <= i < self.active_archetypes@.len() ==> #[trigger] self.active_archetypes@[i]
                < self.n_archetypes()
        &&& forall|a: int|
            0 <= a < self.n_archetypes() ==> (self.active_archetypes@.contains(a as u32)
                <==> #[trigger] self.archetypes@[a].entities@.len() > 0)
    }

    /// Slot `e.id` is free for `e`: no live entity uses it and its
    /// generation is `e.generation` (0 for a slot never recorded).
    pub open spec fn slot_free_for(&self, e: Entity) -> bool {
        &&& e.id < self.next_entity_id
        &&& e.id < self.records@.len() ==> {
            &&& self.record(e.id).archetype_id == NO_ARCHETYPE
            &&& self.record(e.id).generation == e.generation
        }
        &&& e.id >= self.records@.len() ==> e.generation == 0
    }

    /// `e` may be placed into the world: its slot is free for it and neither
    /// the free list nor the spawn queue holds the slot.
    pub open spec fn spawnable(&self, e: Entity) -> bool {
        &&& self.slot_free_for(e)
        &&& !has_id(self.free_entities@, e.id)
        &&& !has_id(self.spawn_queue@, e.id)
    }

    /// Slot allocation: slots from `next_entity_id` on are untouched, the
    /// free list and the spawn queue hold free slots, each once, and share
    /// none.
    pub open spec fn allocator_wf(&self) -> bool {
        &&& forall|id: int|
            self.next_entity_id <= id < self.records@.len() ==> #[trigger] self.records@[id]
                == EntityRecord::dead_spec()
        &&& ids_distinct(self.free_entities@)
        &&& forall|i: int|
            0 <= i < self.free_entities@.len() ==> {
                let e = #[trigger] self.free_entities@[i];
                &&& e.id < self.records@.len()
                &&& self.slot_free_for(e)
            }
        &&& ids_distinct(self.spawn_queue@)
        &&& forall|i: int|
            0 <= i < self.spawn_queue@.len() ==> {
                let e = #[trigger] self.spawn_queue@[i];
                &&& self.slot_free_for(e)
                &&& !has_id(self.free_entities@, e.id)
            }
    }

    /// Resources: keys sorted, each filed under its own slot.
    pub open spec fn resources_wf(&self) -> bool {
        &&& keys_sorted(self.resource_ids@)
        &&& values_distinct(self.resource_ids@)
        &&& forall|i: int|
            0 <= i < self.resource_ids@.len() ==> (#[trigger] self.resource_ids@[i]).1
                < self.resources@.len()
    }

    /// Placement as `placement_wf` requires it, except that slot `id` is
    /// in no row and its record may be stale.
    pub open spec fn placement_wf_except(&self, id: u32) -> bool {
        &&& forall|a: int|
            0 <= a < self.n_archetypes() ==> (#[trigger] self.archetypes@[a]).entities@.len()
                <= u32::MAX
        &&& forall|a: int, r: int|
            0 <= a < self.n_archetypes() && 0 <= r < self.archetypes@[a].entities@.len() ==> {
                let e = #[trigger] self.archetypes@[a].entities@[r];
                &&& e.id != id
                &&& e.id < self.records@.len()
                &&& self.records@[e.id as int] == (EntityRecord {
                    generation: e.generation,
                    archetype_id: a as u32,
                    row: r as u32,
                })
            }
        &&& forall|k: int|
            0 <= k < self.records@.len() && k != id && (#[trigger] self.records@[k]).archetype_id
                != NO_ARCHETYPE ==> {
                let rec = self.records@[k];
                &&& rec.archetype_id < self.n_archetypes()
                &&& rec.row < self.archetypes@[rec.archetype_id as int].entities@.len()
                &&& self.archetypes@[rec.archetype_id as int].entities@[rec.row as int].id == k
            }
    }

    /// The world is sound but for slot `id`, which is in no row: the state
    /// in the middle of moving or removing the entity of that slot.
    pub open spec fn wf_detached(&self, id: u32) -> bool {
        &&& self.registry_wf()
        &&& self.archetypes_wf()
        &&& self.placement_wf_except(id)
        &&& self.active_wf()
        &&& self.allocator_wf()
        &&& self.resources_wf()
        &&& id < self.records@.len()
    }

    /// The children that the hierarchy lists for the slot of `x`.
    pub open spec fn children_of(&self, x: Entity) -> Seq<Entity> {
        if x.id < self.links@.len() {
            self.links@[x.id as int].children@
        } else {
            Seq::empty()
        }
    }

    /// The parent that the hierarchy records for the slot of `x`.
    pub open spec fn parent_of(&self, x: Entity) -> Option<Entity> {
        if x.id < self.links@.len() {
            self.links@[x.id as int].parent
        } else {
            None
        }
    }

    /// Live `x` carries the `Children` component.
    pub open spec fn has_children(&self, x: Entity) -> bool {
        self.component_id(CHILDREN_KEY) matches Some(c) && self.has(x, c)
    }

    /// Live `x` carries the `Parent` component.
    pub open spec fn has_parent(&self, x: Entity) -> bool {
        self.component_id(PARENT_KEY) matches Some(c) && self.has(x, c)
    }

    /// The number of slots that hold a live entity.
    pub open spec fn live_count(&self) -> nat {
        live_slots(self.records@)
    }

    /// The world is sound.
    pub open spec fn wf(&self) -> bool {
        &&& self.registry_wf()
        &&& self.archetypes_wf()
        &&& self.placement_wf()
        &&& self.active_wf()
        &&& self.allocator_wf()
        &&& self.resources_wf()
    }
}


/// `a` and `b` hold the same elements.
pub(crate) fn sig_eq(a: &Vec<usize>, b: &[usize]) -> (r: bool)
    ensures
        r == (a@ == b@),
{
    if a.len() != b.len() {
        return false;
    }
    let mut i: usize = 0;
    while i < a.len()
        invariant
            a@.len() == b@.len(),
            0 <= i <= a@.len(),
            forall|j: int| 0 <= j < i ==> a@[j] == b@[j],
        decreases a@.len() - i,
    {
        if a[i] != b[i] {
            return false;
        }
        i = i + 1;
    }
    assert(a@ =~= b@);
    true
}

impl World {
    /// The world before anything else: its records and archetypes were
    /// left untouched by `old`'s successor except for archetypes appended at
    /// the end, so every handle reads the same.
    pub proof fn lemma_same_with_prefix(&self, old: &World)
        requires
            old.wf(),
            self.records@ == old.records@,
            self.n_archetypes() >= old.n_archetypes(),
            forall|a: int| 0 <= a < old.n_archetypes() ==> #[trigger] self.archetypes@[a] == old.archetypes@[a],
        ensures
            self.same_entities(old),
    {
        assert forall|x: Entity| #[trigger] self.same_entity(old, x) by {
            if old.alive(x) {
                assert(old.record(x.id).archetype_id < old.n_archetypes());
                assert(self.archetype_of(x) == old.archetype_of(x));
            }
        }
    }

    /// Soundness of the archetypes depends on nothing but the archetypes and
    /// the component layouts.
    pub proof fn lemma_archetypes_wf_transfer(&self, old: &World)
        requires
            old.archetypes_wf(),
            self.archetypes@ == old.archetypes@,
            self.component_layouts@ == old.component_layouts@,
        ensures
            self.archetypes_wf(),
    {
        assert forall|a: int| 0 <= a < self.n_archetypes() implies #[trigger] self.edges_wf(a) by {
            assert(old.edges_wf(a));
        }
    }

    /// An archetype with no entities for `signature`, to be stored at index
    /// `id`, its columns made with room for `cap` rows.
    pub(crate) fn build_archetype(&self, signature: &[usize], id: u32, cap: usize) -> (a: Archetype)
        requires
            self.registry_wf(),
            strictly_sorted(signature@),
            forall|i: int| 0 <= i < signature@.len() ==> #[trigger] signature@[i] < self.n_components(),
        ensures
            a.wf(id as int, self.component_layouts@),
            a.signature@ == signature@,
            a.entities@.len() == 0,
            a.add_edges@.len() == 0,
            a.remove_edges@.len() == 0,
            a.last_modified_tick == self.current_tick,
            a.id == id,
            forall|k: int|
                0 <= k < a.columns@.len() ==> {
                    &&& (#[trigger] a.columns@[k]).data.spec_capacity() == if a.columns@[k].data.spec_item_layout().size == 0 {
                        usize::MAX
                    } else {
                        cap
                    }
                    &&& a.columns@[k].last_added_tick == 0
                    &&& a.columns@[k].last_changed_tick == 0
                },
    {
        let n = signature.len();
        let mut columns: Vec<Column> = Vec::new();
        let mut i: usize = 0;
        while i < n
            invariant
                n == signature@.len(),
                0 <= i <= n,
                columns@.len() == i,
                self.registry_wf(),
                forall|k: int| 0 <= k < n ==> #[trigger] signature@[k] < self.n_components(),
                forall|k: int|
                    0 <= k < i ==> {
                        &&& (#[trigger] columns@[k]).wf()
                        &&& columns@[k].len() == 0
                        &&& columns@[k].data.spec_item_layout() == self.component_layouts@[signature@[k] as int]
                        &&& columns@[k].data.spec_capacity() == if columns@[k].data.spec_item_layout().size == 0 { usize::MAX } else { cap }
                        &&& columns@[k].last_added_tick == 0
                        &&& columns@[k].last_changed_tick == 0
                    },
            decreases n - i,
        {
            let cid = signature[i];
            let layout = self.component_layouts[cid];
            columns.push(Column::new(layout, cap));
            i = i + 1;
        }
        let num_comp = self.component_layouts.len();
        proof {
            lemma_sorted_len(signature@, num_comp as nat);
        }
        let mut c2c: Vec<u32> = vec![NO_COLUMN; num_comp];
        let mut j: usize = 0;
        while j < n
            invariant
                n == signature@.len(),
                0 <= j <= n,
                n <= num_comp,
                num_comp == self.n_components(),
                num_comp < u32::MAX,
                c2c@.len() == num_comp,
                strictly_sorted(signature@),
                forall|k: int| 0 <= k < n ==> #[trigger] signature@[k] < num_comp,
                forall|k: int| 0 <= k < j ==> c2c@[#[trigger] signature@[k] as int] == k,
                forall|c: int|
                    0 <= c < num_comp ==> {
                        ||| #[trigger] c2c@[c] == NO_COLUMN
                        ||| (c2c@[c] < j && signature@[c2c@[c] as int] == c)
                    },
            decreases n - j,
        {
            let cid = signature[j];
            c2c.set(cid, j as u32);
            proof {
                assert forall|k: int| 0 <= k < j implies c2c@[#[trigger] signature@[k] as int] == k by {
                    assert(signature@[k] < signature@[j as int]);
                }
            }
            j = j + 1;
        }
        Archetype {
            id,
            last_modified_tick: self.current_tick,
            entities: Vec::with_capacity(8),
            columns,
            signature: slice_to_vec_usize(signature),
            component_to_column: c2c,
            add_edges: Vec::new(),
            remove_edges: Vec::new(),
        }
    }
}

fn slice_to_vec_usize(s: &[usize]) -> (v: Vec<usize>)
    ensures
        v@ == s@,
{
    vstd::slice::slice_to_vec(s)
}

/// A strictly sorted sequence of values below `n` has at most `n` elements.
pub proof fn lemma_sorted_len(s: Seq<usize>, n: nat)
    requires
        strictly_sorted(s),
        forall|i: int| 0 <= i < s.len() ==> #[trigger] s[i] < n,
    ensures
        s.len() <= n,
{
    if s.len() > 0 {
        lemma_sorted_ge_index(s, s.len() - 1);
        assert(s[s.len() - 1] < n);
    }
}

proof fn lemma_sorted_ge_index(s: Seq<usize>, i: int)
    requires
        strictly_sorted(s),
        0 <= i < s.len(),
    ensures
        s[i] >= i,
    decreases i,
{
    if i > 0 {
        lemma_sorted_ge_index(s, i - 1);
    }
}

/// Entities with distinct slots, all below `n`, number at most `n`.
pub proof fn lemma_ids_bound(s: Seq<Entity>, n: nat)
    requires
        ids_distinct(s),
        forall|i: int| 0 <= i < s.len() ==> (#[trigger] s[i]).id < n,
    ensures
        s.len() <= n,
{
    let t = s.map_values(|e: Entity| e.id as int);
    assert forall|i: int, j: int| 0 <= i < t.len() && 0 <= j < t.len() && i != j implies t[i] != t[j] by {
        if i < j {
            assert(s[i].id != s[j].id);
        } else {
            assert(s[j].id != s[i].id);
        }
    }
    assert(t.no_duplicates());
    t.unique_seq_to_set();
    let r = vstd::set_lib::set_int_range(0, n as int);
    assert forall|v: int| t.to_set().contains(v) implies r.contains(v) by {
        let k = t.index_of(v);
        assert(t[k] == v);
        assert(s[k].id < n);
    }
    vstd::set_lib::lemma_int_range(0, n as int);
    vstd::set_lib::lemma_len_subset(t.to_set(), r);
}

/// The number of records in `s` that place a live entity.
pub open spec fn live_slots(s: Seq<EntityRecord>) -> nat
    decreases s.len(),
{
    if s.len() == 0 {
        0
    } else {
        live_slots(s.drop_last()) + if s.last().archetype_id != NO_ARCHETYPE {
            1nat
        } else {
            0nat
        }
    }
}

/// Marking one live record dead, and changing no other record's liveness,
/// lowers the live count by one.
pub proof fn lemma_live_slots_kill(s: Seq<EntityRecord>, t: Seq<EntityRecord>, j: int)
    requires
        s.len() == t.len(),
        0 <= j < s.len(),
        s[j].archetype_id != NO_ARCHETYPE,
        t[j].archetype_id == NO_ARCHETYPE,
        forall|k: int|
            0 <= k < s.len() && k != j ==> (#[trigger] t[k]).archetype_id == s[k].archetype_id,
    ensures
        live_slots(t) + 1 == live_slots(s),
    decreases s.len(),
{
    let n = s.len() - 1;
    if j < n {
        assert forall|k: int|
            0 <= k < s.drop_last().len() && k != j implies (#[trigger] t.drop_last()[k]).archetype_id
            == s.drop_last()[k].archetype_id by {
            assert(t.drop_last()[k] == t[k]);
        }
        lemma_live_slots_kill(s.drop_last(), t.drop_last(), j);
        assert(t.last().archetype_id == s.last().archetype_id) by {
            assert(t[n] == t.last());
        }
    } else {
        lemma_live_slots_same(s.drop_last(), t.drop_last());
    }
}

/// Records with the same liveness slot by slot count alike.
pub proof fn lemma_live_slots_same(s: Seq<EntityRecord>, t: Seq<EntityRecord>)
    requires
        s.len() == t.len(),
        forall|k: int| 0 <= k < s.len() ==> (#[trigger] t[k]).archetype_id == s[k].archetype_id,
    ensures
        live_slots(t) == live_slots(s),
    decreases s.len(),
{
    if s.len() > 0 {
        assert forall|k: int| 0 <= k < s.drop_last().len() implies (#[trigger] t.drop_last()[k]).archetype_id
            == s.drop_last()[k].archetype_id by {
            assert(t.drop_last()[k] == t[k]);
        }
        lemma_live_slots_same(s.drop_last(), t.drop_last());
        assert(t[s.len() - 1] == t.last());
    }
}

} // verus!
