use vstd::prelude::*;

use crate::archetype::Archetype;
use crate::entity::{Entity, EntityRecord};
use crate::schema::lists_id;
use crate::world::World;

verus! {

/// The saved values of one component in one archetype, row by row.
pub struct SerializedColumn {
    pub component_id: usize,
    pub data: Vec<Vec<u8>>,
}

/// A saved archetype: its signature, its entities, and the columns of its
/// components marked serializable.
pub struct SerializedArchetype {
    pub id: u32,
    pub signature: Vec<usize>,
    pub entities: Vec<Entity>,
    pub columns: Vec<SerializedColumn>,
}

/// A saved world.
pub struct SerializedWorld {
    pub current_tick: u32,
    pub structural_gen: u64,
    pub next_entity_id: u32,
    pub records: Vec<EntityRecord>,
    pub archetypes: Vec<SerializedArchetype>,
}

/// The components of `sig` that `ser` lists, in signature order.
pub open spec fn listed_ids(sig: Seq<usize>, ser: Seq<usize>) -> Seq<usize>
    decreases sig.len(),
{
    if sig.len() == 0 {
        Seq::empty()
    } else if lists_id(ser, sig.last()) {
        listed_ids(sig.drop_last(), ser).push(sig.last())
    } else {
        listed_ids(sig.drop_last(), ser)
    }
}

/// The bytes of `rows`.
pub open spec fn rows_view(rows: Seq<Vec<u8>>) -> Seq<Seq<u8>> {
    rows.map_values(|v: Vec<u8>| v@)
}

/// `sa` saves archetype `a`, of index `idx`, with the serializable
/// components `ser`.
pub open spec fn saves_archetype(sa: &SerializedArchetype, a: &Archetype, idx: int, ser: Seq<usize>) -> bool {
    let ids = listed_ids(a.signature@, ser);
    &&& sa.id == idx
    &&& sa.signature@ == a.signature@
    &&& sa.entities@ == a.entities@
    &&& sa.columns@.len() == ids.len()
    &&& forall|k: int|
        0 <= k < ids.len() ==> {
            &&& (#[trigger] sa.columns@[k]).component_id == ids[k]
            &&& rows_view(sa.columns@[k].data@) == a.columns@[a.col_of(ids[k])].data@
        }
}

/// Whether `ser` lists `id`.
fn lists(ser: &Vec<usize>, id: usize) -> (b: bool)
    ensures
        b == lists_id(ser@, id),
{
    let mut i: usize = 0;
    while i < ser.len()
        invariant
            0 <= i <= ser@.len(),
            forall|k: int| 0 <= k < i ==> ser@[k] != id,
        decreases ser@.len() - i,
    {
        if ser[i] == id {
            return true;
        }
        i = i + 1;
    }
    false
}

/// A copy of `rows`.
fn copy_rows(rows: &[Vec<u8>]) -> (out: Vec<Vec<u8>>)
    ensures
        rows_view(out@) == rows_view(rows@),
{
    let mut out: Vec<Vec<u8>> = Vec::new();
    let mut i: usize = 0;
    while i < rows.len()
        invariant
            0 <= i <= rows@.len(),
            out@.len() == i,
            forall|k: int| 0 <= k < i ==> (#[trigger] out@[k])@ == rows@[k]@,
        decreases rows@.len() - i,
    {
        let row = rows[i].clone();
        proof {
            assert(row@ =~= rows@[i as int]@);
        }
        out.push(row);
        i = i + 1;
    }
    proof {
        assert(rows_view(out@) =~= rows_view(rows@));
    }
    out
}

impl World {
    /// Saves archetype `a`: its signature, entities and the rows of its
    /// serializable components.
    fn save_archetype(&self, a: usize) -> (sa: SerializedArchetype)
        requires
            self.wf(),
            a < self.n_archetypes(),
        ensures
            saves_archetype(&sa, &self.archetypes@[a as int], a as int, self.serializable@),
    {
        let arch = &self.archetypes[a];
        proof {
            assert(arch.wf(a as int, self.component_layouts@));
        }
        let n = arch.signature.len();
        let mut columns: Vec<SerializedColumn> = Vec::new();
        let mut i: usize = 0;
        while i < n
            invariant
                self.wf(),
                a < self.n_archetypes(),
                *arch == self.archetypes@[a as int],
                arch.wf(a as int, self.component_layouts@),
                n == arch.signature@.len(),
                0 <= i <= n,
                columns@.len() == listed_ids(arch.signature@.take(i as int), self.serializable@).len(),
                forall|k: int|
                    0 <= k < columns@.len() ==> {
                        let ids = listed_ids(arch.signature@.take(i as int), self.serializable@);
                        &&& (#[trigger] columns@[k]).component_id == ids[k]
                        &&& rows_view(columns@[k].data@) == arch.columns@[arch.col_of(ids[k])].data@
                    },
            decreases n - i,
        {
            let cid = arch.signature[i];
            let ghost prev = listed_ids(arch.signature@.take(i as int), self.serializable@);
            proof {
                let t = arch.signature@.take(i + 1);
                assert(t.drop_last() =~= arch.signature@.take(i as int));
                assert(t.last() == cid);
            }
            if lists(&self.serializable, cid) {
                proof {
                    assert(arch.component_to_column@[cid as int] == i);
                    assert(arch.columns@[i as int].wf());
                }
                let rows = copy_rows(arch.columns[i].data.as_ptr());
                columns.push(SerializedColumn { component_id: cid, data: rows });
                proof {
                    let ids = listed_ids(arch.signature@.take(i + 1), self.serializable@);
                    assert(ids == prev.push(cid));
                    assert forall|k: int| 0 <= k < columns@.len() implies {
                        &&& (#[trigger] columns@[k]).component_id == ids[k]
                        &&& rows_view(columns@[k].data@) == arch.columns@[arch.col_of(ids[k])].data@
                    } by {
                        if k < prev.len() {
                            assert(ids[k] == prev[k]);
                        } else {
                            assert(arch.col_of(cid) == i);
                        }
                    }
                }
            }
            i = i + 1;
        }
        proof {
            assert(arch.signature@.take(n as int) =~= arch.signature@);
        }
        SerializedArchetype {
            id: arch.id,
            signature: arch.signature.clone(),
            entities: arch.entities.clone(),
            columns,
        }
    }

    /// `sw` saves the world: its ticks, slot allocation and records, and
    /// each archetype with the rows of its serializable components.
    pub open spec fn saved_as(&self, sw: &SerializedWorld) -> bool {
        &&& sw.current_tick == self.current_tick
        &&& sw.structural_gen == self.structural_gen
        &&& sw.next_entity_id == self.next_entity_id
        &&& sw.records@ == self.records@
        &&& sw.archetypes@.len() == self.n_archetypes()
        &&& forall|a: int|
            0 <= a < self.n_archetypes() ==> saves_archetype(
                &#[trigger] sw.archetypes@[a],
                &self.archetypes@[a],
                a,
                self.serializable@,
            )
    }

    /// Every component that a live entity holds is marked serializable:
    /// every component of every archetype that holds entities.
    pub open spec fn held_serializable(&self) -> bool {
        forall|a: int, i: int|
            0 <= a < self.n_archetypes() && self.archetypes@[a].entities@.len() > 0 && 0 <= i
                < self.archetypes@[a].signature@.len() ==> lists_id(
                self.serializable@,
                #[trigger] self.archetypes@[a].signature@[i],
            )
    }

    /// Saves the world: its ticks, slot allocation, records and archetypes,
    /// with the rows of the components marked serializable.
    pub fn save_to_serialized(&self) -> (sw: SerializedWorld)
        requires
            self.wf(),
        ensures
            self.saved_as(&sw),
    {
        let na = self.archetypes.len();
        let mut archetypes: Vec<SerializedArchetype> = Vec::new();
        let mut a: usize = 0;
        while a < na
            invariant
                self.wf(),
                na == self.n_archetypes(),
                0 <= a <= na,
                archetypes@.len() == a,
                forall|b: int|
                    0 <= b < a ==> saves_archetype(&#[trigger] archetypes@[b], &self.archetypes@[b], b, self.serializable@),
            decreases na - a,
        {
            let sa = self.save_archetype(a);
            archetypes.push(sa);
            a = a + 1;
        }
        SerializedWorld {
            current_tick: self.current_tick,
            structural_gen: self.structural_gen,
            next_entity_id: self.next_entity_id,
            records: self.records.clone(),
            archetypes,
        }
    }
}

} // verus!
