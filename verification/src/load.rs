use vstd::prelude::*;

use crate::archetype::{strictly_sorted, Archetype, Column};
use crate::entity::{Entity, EntityRecord, NO_ARCHETYPE};
use crate::schema::lists_id;
use crate::serialize::{rows_view, SerializedArchetype, SerializedColumn, SerializedWorld};
use crate::world::{has_id, ids_distinct, World};

verus! {

/// Why a saved world cannot be loaded.
#[derive(Clone, Copy, PartialEq, Eq, Structural, Debug)]
pub enum LoadError {
    /// An archetype is out of place, has an unsorted or unknown signature,
    /// repeats another's signature, or the first is not the empty one.
    Archetype,
    /// The saved columns of an archetype are not each of a distinct
    /// component of its signature with one well-sized row per entity, or an
    /// archetype holding entities lacks a column for a component of its
    /// signature, or holds one that is not serializable.
    Column,
    /// The records and the rows of the archetypes disagree.
    Placement,
    /// The saved records mark slots at or past the saved slot count as used.
    Allocation,
}

/// Column `k` of `cols` holds component `cid`.
pub open spec fn holds(cols: Seq<SerializedColumn>, k: int, cid: usize) -> bool {
    0 <= k < cols.len() && cols[k].component_id == cid
}

/// The column of `cols` that holds component `cid` (the first one).
pub open spec fn column_for(cols: Seq<SerializedColumn>, cid: usize) -> int {
    choose|k: int| holds(cols, k, cid) && forall|j: int| 0 <= j < k ==> cols[j].component_id != cid
}

/// The rows that a loaded archetype holds for component `c` of saved
/// archetype `sa`: none when it holds no entity, else those of the column
/// that holds `c`.
pub open spec fn saved_rows(sa: &SerializedArchetype, c: usize) -> Seq<Seq<u8>> {
    if sa.entities@.len() == 0 {
        Seq::empty()
    } else {
        rows_view(sa.columns@[column_for(sa.columns@, c)].data@)
    }
}

/// Saved archetype `sa` can stand at index `a` of a world with the registry
/// of `w`: its signature sorted and registered, its columns each of a
/// component of it, none twice, with one row per entity, each row the size
/// of the component; and, when it holds entities, every component of it
/// serializable and given a column.
pub open spec fn archetype_loadable(w: &World, sa: &SerializedArchetype, a: int) -> bool {
    let sig = sa.signature@;
    let cols = sa.columns@;
    &&& sa.id == a
    &&& strictly_sorted(sig)
    &&& forall|i: int| 0 <= i < sig.len() ==> #[trigger] sig[i] < w.n_components()
    &&& sa.entities@.len() <= u32::MAX
    &&& forall|k: int, j: int| 0 <= k < j < cols.len() ==> cols[k].component_id != cols[j].component_id
    &&& forall|k: int| 0 <= k < cols.len() ==> sig.contains(#[trigger] cols[k].component_id)
    &&& forall|i: int|
        0 <= i < sig.len() && sa.entities@.len() > 0 ==> {
            &&& lists_id(w.serializable@, #[trigger] sig[i])
            &&& exists|k: int| holds(cols, k, sig[i])
        }
    &&& forall|k: int|
        0 <= k < cols.len() ==> {
            &&& (#[trigger] cols[k]).data@.len() == sa.entities@.len()
            &&& forall|r: int|
                0 <= r < cols[k].data@.len() ==> (#[trigger] cols[k].data@[r])@.len()
                    == w.component_layouts@[cols[k].component_id as int].size
        }
}

/// The saved archetypes can be loaded into a world with the registry of
/// `w`: each can stand at its index, the first has no components, and no
/// two share a signature.
pub open spec fn archetypes_loadable(w: &World, sas: Seq<SerializedArchetype>) -> bool {
    &&& 1 <= sas.len() < u32::MAX
    &&& sas[0].signature@.len() == 0
    &&& forall|a: int| 0 <= a < sas.len() ==> archetype_loadable(w, &#[trigger] sas[a], a)
    &&& forall|a: int, b: int| 0 <= a < b < sas.len() ==> sas[a].signature@ != sas[b].signature@
}

/// The saved records and rows agree: the record of the entity in row `r`
/// of archetype `a` points at `(a, r)`, and every occupied record points at
/// a row holding its slot.
pub open spec fn placement_loadable(records: Seq<EntityRecord>, sas: Seq<SerializedArchetype>) -> bool {
    &&& forall|a: int, r: int|
        0 <= a < sas.len() && 0 <= r < sas[a].entities@.len() ==> {
            let e = #[trigger] sas[a].entities@[r];
            &&& e.id < records.len()
            &&& records[e.id as int] == (EntityRecord { generation: e.generation, archetype_id: a as u32, row: r as u32 })
        }
    &&& forall|id: int|
        0 <= id < records.len() && (#[trigger] records[id]).archetype_id != NO_ARCHETYPE ==> {
            let rec = records[id];
            &&& rec.archetype_id < sas.len()
            &&& rec.row < sas[rec.archetype_id as int].entities@.len()
            &&& sas[rec.archetype_id as int].entities@[rec.row as int].id == id
        }
}

/// Slot `e.id` is free for `e` under `records` with `next` slots handed out.
pub open spec fn free_under(records: Seq<EntityRecord>, next: u32, e: Entity) -> bool {
    &&& e.id < next
    &&& e.id < records.len() ==> {
        &&& records[e.id as int].archetype_id == NO_ARCHETYPE
        &&& records[e.id as int].generation == e.generation
    }
    &&& e.id >= records.len() ==> e.generation == 0
}

/// The saved slot allocation is sound: slots from the saved count on were
/// never used.
pub open spec fn allocation_loadable(records: Seq<EntityRecord>, next: u32) -> bool {
    forall|id: int| next <= id < records.len() ==> #[trigger] records[id] == EntityRecord::dead_spec()
}

/// A free-list entry of the loading world that stays on its free list: its
/// slot is recorded by the save and free for it there.
pub open spec fn stays_free(records: Seq<EntityRecord>, next: u32) -> spec_fn(Entity) -> bool {
    |e: Entity| e.id < records.len() && free_under(records, next, e)
}

/// A spawn-queue entry of the loading world that stays queued: its slot is
/// free for it under the save.
pub open spec fn stays_queued(records: Seq<EntityRecord>, next: u32) -> spec_fn(Entity) -> bool {
    |e: Entity| free_under(records, next, e)
}

/// `sw` can be loaded into `w`.
pub open spec fn loadable(w: &World, sw: &SerializedWorld) -> bool {
    &&& archetypes_loadable(w, sw.archetypes@)
    &&& placement_loadable(sw.records@, sw.archetypes@)
    &&& allocation_loadable(sw.records@, sw.next_entity_id)
}

/// The error that loading `sw` into `w` gives, when it cannot be loaded.
pub open spec fn load_error(w: &World, sw: &SerializedWorld) -> LoadError {
    if !signatures_ok(w, sw.archetypes@) {
        LoadError::Archetype
    } else if !archetypes_loadable(w, sw.archetypes@) {
        LoadError::Column
    } else if !placement_loadable(sw.records@, sw.archetypes@) {
        LoadError::Placement
    } else {
        LoadError::Allocation
    }
}

/// The saved archetypes have their places and signatures right: at least
/// one, the first without components, no signature twice, each sorted and
/// registered.
pub open spec fn signatures_ok(w: &World, sas: Seq<SerializedArchetype>) -> bool {
    &&& 1 <= sas.len() < u32::MAX
    &&& sas[0].signature@.len() == 0
    &&& forall|a: int, b: int| 0 <= a < b < sas.len() ==> sas[a].signature@ != sas[b].signature@
    &&& forall|a: int| 0 <= a < sas.len() ==> archetype_signature_ok(w, &#[trigger] sas[a], a)
}

/// The part of `archetype_loadable` about the archetype's place and
/// signature.
pub open spec fn archetype_signature_ok(w: &World, sa: &SerializedArchetype, a: int) -> bool {
    &&& sa.id == a
    &&& strictly_sorted(sa.signature@)
    &&& forall|i: int| 0 <= i < sa.signature@.len() ==> #[trigger] sa.signature@[i] < w.n_components()
    &&& sa.entities@.len() <= u32::MAX
}

/// Component `c` is serializable in `w` and some column of `cols` holds it.
pub open spec fn column_given(w: &World, cols: Seq<SerializedColumn>, c: usize) -> bool {
    lists_id(w.serializable@, c) && exists|k: int| holds(cols, k, c)
}

/// Whether `s` holds `x`.
fn seq_holds(s: &Vec<usize>, x: usize) -> (b: bool)
    ensures
        b == s@.contains(x),
{
    let mut i: usize = 0;
    while i < s.len()
        invariant
            0 <= i <= s@.len(),
            forall|k: int| 0 <= k < i ==> s@[k] != x,
        decreases s@.len() - i,
    {
        if s[i] == x {
            proof {
                assert(s@[i as int] == x);
            }
            return true;
        }
        i = i + 1;
    }
    false
}

/// Whether `ser` lists `id`.
fn lists_exec(ser: &Vec<usize>, id: usize) -> (b: bool)
    ensures
        b == lists_id(ser@, id),
{
    let mut i: usize = 0;
    while i < ser.len()
        invariant
            0 <= i <= ser@.len(),
            forall|k: int| 0 <= k < i ==> ser@[k] != id,
        decreases ser@.len() - i,
    {
        if ser[i] == id {
            return true;
        }
        i = i + 1;
    }
    false
}

/// Whether saved archetype `sa` has its place and signature right for
/// index `a` of a world with the registry of `w`.
#[verifier::loop_isolation(false)]
fn check_signature(w: &World, sa: &SerializedArchetype, a: usize) -> (b: bool)
    ensures
        b == archetype_signature_ok(w, sa, a as int),
{
    if sa.id as usize != a {
        return false;
    }
    let sig = &sa.signature;
    let n = sig.len();
    let nc = w.component_layouts.len();
    let mut i: usize = 0;
    while i < n
        invariant
            n == sig@.len(),
            nc == w.n_components(),
            0 <= i <= n,
            forall|k: int| 0 <= k < i ==> #[trigger] sig@[k] < nc,
            forall|k: int, j: int| 0 <= k < j < i ==> sig@[k] < sig@[j],
        decreases n - i,
    {
        if sig[i] >= nc {
            proof {
                assert(!(sig@[i as int] < w.n_components()));
            }
            return false;
        }
        if i > 0 && sig[i - 1] >= sig[i] {
            proof {
                assert(!(sig@[i - 1] < sig@[i as int]));
            }
            return false;
        }
        proof {
            assert forall|k: int, j: int| 0 <= k < j < i + 1 implies sig@[k] < sig@[j] by {
                if j == i && k < i - 1 {
                    assert(sig@[k] < sig@[i - 1]);
                }
            }
        }
        i = i + 1;
    }
    let len = sa.entities.len();
    len <= 0xffff_ffffusize
}

/// Whether the saved columns of `sa`, whose signature is right, give each
/// component of the signature, serializable in `w`, exactly one column of
/// one row per entity, each row the size of the component.
#[verifier::loop_isolation(false)]
fn check_columns(w: &World, sa: &SerializedArchetype, Ghost(a): Ghost<int>) -> (b: bool)
    requires
        archetype_signature_ok(w, sa, a),
    ensures
        b == archetype_loadable(w, sa, a),
{
    let sig = &sa.signature;
    let cols = &sa.columns;
    let nc = cols.len();
    let ns = sig.len();
    let ne = sa.entities.len();
    let mut k: usize = 0;
    while k < nc
        invariant
            nc == cols@.len(),
            ns == sig@.len(),
            ne == sa.entities@.len(),
            0 <= k <= nc,
            archetype_signature_ok(w, sa, a),
            forall|x: int, y: int| 0 <= x < y < k ==> cols@[x].component_id != cols@[y].component_id,
            forall|x: int| 0 <= x < k ==> sig@.contains(#[trigger] cols@[x].component_id),
            forall|x: int|
                0 <= x < k ==> {
                    &&& (#[trigger] cols@[x]).data@.len() == ne
                    &&& forall|r: int|
                        0 <= r < cols@[x].data@.len() ==> (#[trigger] cols@[x].data@[r])@.len()
                            == w.component_layouts@[cols@[x].component_id as int].size
                },
        decreases nc - k,
    {
        let cid = cols[k].component_id;
        if !seq_holds(sig, cid) {
            proof {
                assert(!sig@.contains(cols@[k as int].component_id));
            }
            return false;
        }
        let mut j: usize = 0;
        while j < k
            invariant
                0 <= j <= k,
                k < nc,
                nc == cols@.len(),
                cid == cols@[k as int].component_id,
                forall|y: int| 0 <= y < j ==> cols@[y].component_id != cid,
            decreases k - j,
        {
            if cols[j].component_id == cid {
                proof {
                    assert(cols@[j as int].component_id == cols@[k as int].component_id);
                }
                return false;
            }
            j = j + 1;
        }
        let rows = &cols[k].data;
        if rows.len() != ne {
            proof {
                assert(cols@[k as int].data@.len() != ne);
            }
            return false;
        }
        proof {
            let i = sig@.index_of(cid);
            assert(sig@[i] < w.n_components());
        }
        let size = w.component_layouts[cid].size;
        let mut r: usize = 0;
        while r < ne
            invariant
                0 <= r <= ne,
                ne == rows@.len(),
                k < nc,
                *rows == cols@[k as int].data,
                cid == cols@[k as int].component_id,
                cid < w.n_components(),
                size == w.component_layouts@[cid as int].size,
                forall|y: int| 0 <= y < r ==> (#[trigger] rows@[y])@.len() == size,
            decreases ne - r,
        {
            if rows[r].len() != size {
                proof {
                    assert(cols@[k as int].data@[r as int]@.len() != size);
                }
                return false;
            }
            r = r + 1;
        }
        k = k + 1;
    }
    if ne == 0 {
        return true;
    }
    let mut i: usize = 0;
    while i < ns
        invariant
            nc == cols@.len(),
            ns == sig@.len(),
            0 <= i <= ns,
            forall|x: int| 0 <= x < i ==> #[trigger] column_given(w, cols@, sig@[x]),
        decreases ns - i,
    {
        let cid = sig[i];
        if !lists_exec(&w.serializable, cid) {
            proof {
                assert(!lists_id(w.serializable@, sig@[i as int]));
            }
            return false;
        }
        let mut y: usize = 0;
        let mut found = false;
        while y < nc
            invariant
                0 <= y <= nc,
                nc == cols@.len(),
                cid == sig@[i as int],
                i < ns,
                ns == sig@.len(),
                forall|x: int| 0 <= x < i ==> #[trigger] column_given(w, cols@, sig@[x]),
                found ==> exists|z: int| holds(cols@, z, cid),
                !found ==> forall|z: int| 0 <= z < y ==> !holds(cols@, z, cid),
            decreases nc - y,
        {
            if cols[y].component_id == cid {
                found = true;
                proof {
                    assert(holds(cols@, y as int, cid));
                }
            }
            y = y + 1;
        }
        if !found {
            proof {
                assert(!(exists|z: int| holds(cols@, z, sig@[i as int])));
            }
            return false;
        }
        proof {
            assert(column_given(w, cols@, sig@[i as int]));
        }
        i = i + 1;
    }
    proof {
        assert forall|x: int| 0 <= x < sig@.len() implies {
            &&& lists_id(w.serializable@, #[trigger] sig@[x])
            &&& exists|y: int| holds(cols@, y, sig@[x])
        } by {
            assert(column_given(w, cols@, sig@[x]));
        }
    }
    true
}

/// Checks the saved archetypes: `Archetype` when their places or
/// signatures are wrong, `Column` when their columns are.
#[verifier::loop_isolation(false)]
fn check_archetypes(w: &World, sas: &Vec<SerializedArchetype>) -> (r: Result<(), LoadError>)
    ensures
        r is Ok <==> archetypes_loadable(w, sas@),
        r matches Err(e) ==> {
            &&& !signatures_ok(w, sas@) ==> e == LoadError::Archetype
            &&& signatures_ok(w, sas@) ==> e == LoadError::Column
        },
{
    let n = sas.len();
    if n == 0 || n >= 0xffff_ffffusize {
        return Err(LoadError::Archetype);
    }
    if sas[0].signature.len() != 0 {
        return Err(LoadError::Archetype);
    }
    let mut a: usize = 0;
    while a < n
        invariant
            n == sas@.len(),
            0 <= a <= n,
            forall|x: int| 0 <= x < a ==> archetype_signature_ok(w, &#[trigger] sas@[x], x),
        decreases n - a,
    {
        if !check_signature(w, &sas[a], a) {
            proof {
                assert(!archetype_signature_ok(w, &sas@[a as int], a as int));
                assert(!archetype_loadable(w, &sas@[a as int], a as int));
            }
            return Err(LoadError::Archetype);
        }
        a = a + 1;
    }
    let mut x: usize = 0;
    while x < n
        invariant
            n == sas@.len(),
            0 <= x <= n,
            forall|p: int, q: int| 0 <= p < q < n && p < x ==> sas@[p].signature@ != sas@[q].signature@,
        decreases n - x,
    {
        let mut y: usize = x + 1;
        while y < n
            invariant
                n == sas@.len(),
                x < n,
                x + 1 <= y <= n,
                forall|p: int, q: int| 0 <= p < q < n && p < x ==> sas@[p].signature@ != sas@[q].signature@,
                forall|q: int| x < q < y ==> sas@[x as int].signature@ != sas@[q].signature@,
            decreases n - y,
        {
            if crate::world::sig_eq(&sas[x].signature, sas[y].signature.as_slice()) {
                return Err(LoadError::Archetype);
            }
            y = y + 1;
        }
        x = x + 1;
    }
    let mut c: usize = 0;
    while c < n
        invariant
            n == sas@.len(),
            0 <= c <= n,
            forall|p: int| 0 <= p < n ==> archetype_signature_ok(w, &#[trigger] sas@[p], p),
            forall|p: int| 0 <= p < c ==> archetype_loadable(w, &#[trigger] sas@[p], p),
        decreases n - c,
    {
        if !check_columns(w, &sas[c], Ghost(c as int)) {
            return Err(LoadError::Column);
        }
        c = c + 1;
    }
    Ok(())
}

/// Whether the saved records and rows agree.
#[verifier::loop_isolation(false)]
fn check_placement(records: &Vec<EntityRecord>, sas: &Vec<SerializedArchetype>) -> (b: bool)
    requires
        sas@.len() < u32::MAX,
        forall|a: int| 0 <= a < sas@.len() ==> (#[trigger] sas@[a]).entities@.len() <= u32::MAX,
    ensures
        b == placement_loadable(records@, sas@),
{
    let n = sas.len();
    let nr = records.len();
    let mut a: usize = 0;
    while a < n
        invariant
            n == sas@.len(),
            nr == records@.len(),
            0 <= a <= n,
            forall|x: int, r: int|
                0 <= x < a && 0 <= r < sas@[x].entities@.len() ==> {
                    let e = #[trigger] sas@[x].entities@[r];
                    &&& e.id < records@.len()
                    &&& records@[e.id as int] == (EntityRecord { generation: e.generation, archetype_id: x as u32, row: r as u32 })
                },
        decreases n - a,
    {
        let ents = &sas[a].entities;
        let ne = ents.len();
        let mut r: usize = 0;
        while r < ne
            invariant
                n == sas@.len(),
                a < n,
                *ents == sas@[a as int].entities,
                ne == ents@.len(),
                ne <= u32::MAX,
                nr == records@.len(),
                0 <= r <= ne,
                forall|x: int, q: int|
                    0 <= x < a && 0 <= q < sas@[x].entities@.len() ==> {
                        let e = #[trigger] sas@[x].entities@[q];
                        &&& e.id < records@.len()
                        &&& records@[e.id as int] == (EntityRecord { generation: e.generation, archetype_id: x as u32, row: q as u32 })
                    },
                forall|q: int|
                    0 <= q < r ==> {
                        let e = #[trigger] sas@[a as int].entities@[q];
                        &&& e.id < records@.len()
                        &&& records@[e.id as int] == (EntityRecord { generation: e.generation, archetype_id: a as u32, row: q as u32 })
                    },
            decreases ne - r,
        {
            let e = ents[r];
            if (e.id as usize) >= nr {
                return false;
            }
            let want = EntityRecord { generation: e.generation, archetype_id: a as u32, row: r as u32 };
            if records[e.id as usize] != want {
                return false;
            }
            r = r + 1;
        }
        a = a + 1;
    }
    let mut id: usize = 0;
    while id < nr
        invariant
            n == sas@.len(),
            nr == records@.len(),
            0 <= id <= nr,
            forall|k: int|
                0 <= k < id && (#[trigger] records@[k]).archetype_id != NO_ARCHETYPE ==> {
                    let rec = records@[k];
                    &&& rec.archetype_id < sas@.len()
                    &&& rec.row < sas@[rec.archetype_id as int].entities@.len()
                    &&& sas@[rec.archetype_id as int].entities@[rec.row as int].id == k
                },
        decreases nr - id,
    {
        let rec = records[id];
        if rec.archetype_id != NO_ARCHETYPE {
            let ai = rec.archetype_id as usize;
            if ai >= n {
                return false;
            }
            let row = rec.row as usize;
            if row >= sas[ai].entities.len() {
                return false;
            }
            if sas[ai].entities[row].id as usize != id {
                return false;
            }
        }
        id = id + 1;
    }
    true
}

/// Whether `e` is free under `records` with `next` slots handed out.
fn free_under_exec(records: &Vec<EntityRecord>, next: u32, e: Entity) -> (b: bool)
    ensures
        b == free_under(records@, next, e),
{
    if e.id >= next {
        return false;
    }
    if (e.id as usize) < records.len() {
        let rec = records[e.id as usize];
        rec.archetype_id == NO_ARCHETYPE && rec.generation == e.generation
    } else {
        e.generation == 0
    }
}

/// Whether the saved records leave every slot from the saved count on
/// unused.
fn check_allocation(records: &Vec<EntityRecord>, next: u32) -> (b: bool)
    ensures
        b == allocation_loadable(records@, next),
{
    let nr = records.len();
    let mut id: usize = next as usize;
    while id < nr
        invariant
            nr == records@.len(),
            next <= id,
            id <= nr || id == next,
            forall|k: int| next <= k < id ==> #[trigger] records@[k] == EntityRecord::dead_spec(),
        decreases nr - id,
    {
        let dead = EntityRecord::dead();
        if records[id] != dead {
            proof {
                assert(records@[id as int] != EntityRecord::dead_spec());
                assert(next <= id < records@.len());
            }
            return false;
        }
        id = id + 1;
    }
    true
}

/// The entries of `v` that `stays_free` (when `recorded`) or `stays_queued`
/// keeps under the saved records, in their order.
fn keep_free(v: &Vec<Entity>, records: &Vec<EntityRecord>, next: u32, recorded: bool) -> (r: Vec<Entity>)
    ensures
        r@ == v@.filter(if recorded {
            stays_free(records@, next)
        } else {
            stays_queued(records@, next)
        }),
{
    let ghost p = if recorded {
        stays_free(records@, next)
    } else {
        stays_queued(records@, next)
    };
    let mut r: Vec<Entity> = Vec::new();
    let mut i: usize = 0;
    while i < v.len()
        invariant
            0 <= i <= v@.len(),
            p == (if recorded {
                stays_free(records@, next)
            } else {
                stays_queued(records@, next)
            }),
            r@ == v@.subrange(0, i as int).filter(p),
        decreases v@.len() - i,
    {
        let e = v[i];
        let keep = free_under_exec(records, next, e) && (!recorded || (e.id as usize) < records.len());
        proof {
            assert(keep == p(e));
        }
        if keep {
            r.push(e);
        }
        proof {
            reveal(Seq::filter);
            assert(v@.subrange(0, i + 1).drop_last() =~= v@.subrange(0, i as int));
            assert(v@.subrange(0, i + 1).last() == e);
        }
        i = i + 1;
    }
    assert(v@.subrange(0, v@.len() as int) =~= v@);
    r
}

/// Filtering keeps slots distinct and takes nothing that was not there.
proof fn lemma_filter_ids(s: Seq<Entity>, p: spec_fn(Entity) -> bool)
    requires
        ids_distinct(s),
    ensures
        ids_distinct(s.filter(p)),
        forall|x: Entity| #[trigger] s.filter(p).contains(x) ==> s.contains(x),
    decreases s.len(),
{
    assert forall|x: Entity| #[trigger] s.filter(p).contains(x) implies s.contains(x) by {
        s.lemma_filter_contains_rev(p, x);
    }
    if s.len() > 0 {
        reveal(Seq::filter);
        let t = s.drop_last();
        assert(ids_distinct(t));
        lemma_filter_ids(t, p);
        let f = s.filter(p);
        let ft = t.filter(p);
        if p(s.last()) {
            assert(f == ft.push(s.last()));
            assert forall|i: int, j: int| 0 <= i < j < f.len() implies f[i].id != f[j].id by {
                if j == f.len() - 1 {
                    assert(ft.contains(f[i]));
                    assert(t.contains(f[i]));
                    let k = t.index_of(f[i]);
                    assert(s[k] == f[i]);
                    assert(s[s.len() - 1] == s.last());
                } else {
                    assert(f[i] == ft[i] && f[j] == ft[j]);
                }
            }
        } else {
            assert(f == ft);
        }
    }
}

/// `arch` is the archetype loaded from `sa` at index `a`: its entities and
/// signature, and per component of the signature the rows of its saved
/// column, each added and changed at `tick`; no cached moves yet.
pub open spec fn archetype_loaded(arch: &Archetype, sa: &SerializedArchetype, a: int, tick: u32) -> bool {
    let sig = sa.signature@;
    &&& arch.id == a
    &&& arch.entities@ == sa.entities@
    &&& arch.signature@ == sig
    &&& arch.last_modified_tick == tick
    &&& arch.add_edges@.len() == 0
    &&& arch.remove_edges@.len() == 0
    &&& forall|i: int|
        0 <= i < sig.len() ==> {
            let col = #[trigger] arch.columns@[i];
            &&& col.data@ == saved_rows(sa, sig[i])
            &&& col.added_ticks@ == Seq::new(sa.entities@.len(), |r: int| tick)
            &&& col.changed_ticks@ == Seq::new(sa.entities@.len(), |r: int| tick)
            &&& col.last_added_tick == 0
            &&& col.last_changed_tick == 0
        }
}

/// The first column of `cols` holding component `cid`, known to exist.
fn find_column(cols: &Vec<SerializedColumn>, cid: usize) -> (k: usize)
    requires
        exists|k: int| holds(cols@, k, cid),
    ensures
        k == column_for(cols@, cid),
        holds(cols@, k as int, cid),
{
    let n = cols.len();
    let mut k: usize = 0;
    while k < n
        invariant
            n == cols@.len(),
            0 <= k <= n,
            exists|x: int| holds(cols@, x, cid),
            forall|j: int| 0 <= j < k ==> cols@[j].component_id != cid,
        decreases n - k,
    {
        if cols[k].component_id == cid {
            proof {
                let c = column_for(cols@, cid);
                assert(holds(cols@, k as int, cid) && forall|j: int| 0 <= j < k ==> cols@[j].component_id != cid);
                if c < k {
                    assert(cols@[c].component_id == cid);
                } else if c > k {
                    assert(cols@[k as int].component_id == cid);
                }
            }
            return k;
        }
        k = k + 1;
    }
    proof {
        let x = choose|x: int| holds(cols@, x, cid);
        assert(cols@[x].component_id == cid);
    }
    k
}

impl World {
    /// A column of component `cid` holding `rows`, each added and changed at
    /// `tick`.
    fn load_column(&self, rows: &Vec<Vec<u8>>, cid: usize, cap: usize, tick: u32) -> (col: Column)
        requires
            self.wf(),
            cid < self.n_components(),
            rows@.len() <= u32::MAX,
            forall|r: int| 0 <= r < rows@.len() ==> (#[trigger] rows@[r])@.len() == self.component_layouts@[cid as int].size,
        ensures
            col.wf(),
            col.data.spec_item_layout() == self.component_layouts@[cid as int],
            col.data@ == rows_view(rows@),
            col.added_ticks@ == Seq::new(rows@.len(), |r: int| tick),
            col.changed_ticks@ == Seq::new(rows@.len(), |r: int| tick),
            col.last_added_tick == 0,
            col.last_changed_tick == 0,
    {
        let layout = self.component_layouts[cid];
        let mut col = Column::new(layout, cap);
        let n = rows.len();
        let mut r: usize = 0;
        while r < n
            invariant
                n == rows@.len(),
                n <= u32::MAX,
                0 <= r <= n,
                layout == self.component_layouts@[cid as int],
                forall|q: int| 0 <= q < rows@.len() ==> (#[trigger] rows@[q])@.len() == layout.size,
                col.wf(),
                col.data.spec_item_layout() == layout,
                col.data@ == rows_view(rows@.take(r as int)),
                col.added_ticks@ == Seq::new(r as nat, |q: int| tick),
                col.changed_ticks@ == Seq::new(r as nat, |q: int| tick),
                col.last_added_tick == 0,
                col.last_changed_tick == 0,
            decreases n - r,
        {
            proof {
                assert(rows@[r as int]@.len() == layout.size);
            }
            col.data.push_raw(rows[r].as_slice());
            col.added_ticks.push(tick);
            col.changed_ticks.push(tick);
            proof {
                assert(rows_view(rows@.take(r + 1)) =~= rows_view(rows@.take(r as int)).push(rows@[r as int]@));
                assert(col.added_ticks@ =~= Seq::new((r + 1) as nat, |q: int| tick));
                assert(col.changed_ticks@ =~= Seq::new((r + 1) as nat, |q: int| tick));
            }
            r = r + 1;
        }
        proof {
            assert(rows@.take(n as int) =~= rows@);
        }
        col
    }

    /// The archetype loaded from `sa` at index `a`, its rows added and
    /// changed at `tick`, the current tick; its columns have room for its
    /// rows, and at least 8.
    fn load_archetype(&self, sa: &SerializedArchetype, a: usize, tick: u32) -> (arch: Archetype)
        requires
            self.wf(),
            archetype_loadable(self, sa, a as int),
            self.current_tick == tick,
        ensures
            arch.wf(a as int, self.component_layouts@),
            archetype_loaded(&arch, sa, a as int, tick),
    {
        let ne = sa.entities.len();
        let cap: usize = if ne > 8 { ne } else { 8 };
        let mut arch = self.build_archetype(sa.signature.as_slice(), a as u32, cap);
        let ns = sa.signature.len();
        let mut columns: Vec<Column> = Vec::new();
        let mut i: usize = 0;
        while i < ns
            invariant
                self.wf(),
                archetype_loadable(self, sa, a as int),
                ns == sa.signature@.len(),
                ne == sa.entities@.len(),
                ne <= u32::MAX,
                0 <= i <= ns,
                columns@.len() == i,
                forall|x: int|
                    0 <= x < i ==> {
                        let col = #[trigger] columns@[x];
                        &&& col.wf()
                        &&& col.data.spec_item_layout() == self.component_layouts@[sa.signature@[x] as int]
                        &&& col.last_added_tick == 0
                        &&& col.last_changed_tick == 0
                        &&& col.data@ == saved_rows(sa, sa.signature@[x])
                        &&& col.added_ticks@ == Seq::new(ne as nat, |r: int| tick)
                        &&& col.changed_ticks@ == Seq::new(ne as nat, |r: int| tick)
                    },
            decreases ns - i,
        {
            let cid = sa.signature[i];
            if ne == 0 {
                let none: Vec<Vec<u8>> = Vec::new();
                let col = self.load_column(&none, cid, cap, tick);
                proof {
                    assert(rows_view(none@) =~= Seq::<Seq<u8>>::empty());
                    assert(col.added_ticks@ =~= Seq::new(ne as nat, |r: int| tick));
                    assert(col.changed_ticks@ =~= Seq::new(ne as nat, |r: int| tick));
                }
                columns.push(col);
            } else {
                proof {
                    assert(lists_id(self.serializable@, sa.signature@[i as int]));
                    assert(exists|k: int| holds(sa.columns@, k, sa.signature@[i as int]));
                }
                let k = find_column(&sa.columns, cid);
                proof {
                    assert(sa.columns@[k as int].data@.len() == ne);
                }
                let col = self.load_column(&sa.columns[k].data, cid, cap, tick);
                columns.push(col);
            }
            i = i + 1;
        }
        arch.columns = columns;
        arch.entities = sa.entities.clone();
        proof {
            assert(arch.entities@ =~= sa.entities@);
            assert forall|x: int| 0 <= x < arch.columns@.len() implies (#[trigger] arch.columns@[x]).wf()
                && arch.columns@[x].len() == arch.entities@.len() by {
                assert(arch.columns@[x].added_ticks@.len() == ne);
            }
        }
        arch
    }
}

impl World {
    /// `self` is `old` with the saved world `sw` loaded: the tick, the
    /// structural generation, the slot count and the records of `sw`; its
    /// archetypes, loaded at the tick of `sw`; as active archetypes the
    /// indices of those holding entities, in increasing order; all else as in
    /// `old`, but for the free list and the spawn queue, which keep the
    /// entries whose slots the save leaves free for them.
    pub open spec fn loaded_from(&self, old: &World, sw: &SerializedWorld) -> bool {
        let sas = sw.archetypes@;
        &&& self.current_tick == sw.current_tick
        &&& self.structural_gen == sw.structural_gen
        &&& self.next_entity_id == sw.next_entity_id
        &&& self.records@ == sw.records@
        &&& self.n_archetypes() == sas.len()
        &&& forall|a: int|
            0 <= a < sas.len() ==> archetype_loaded(&#[trigger] self.archetypes@[a], &sas[a], a, sw.current_tick)
        &&& forall|i: int, j: int|
            0 <= i < j < self.active_archetypes@.len() ==> self.active_archetypes@[i] < self.active_archetypes@[j]
        &&& forall|i: int| 0 <= i < self.active_archetypes@.len() ==> #[trigger] self.active_archetypes@[i] < sas.len()
        &&& forall|a: int|
            0 <= a < sas.len() ==> (self.active_archetypes@.contains(a as u32) <==> #[trigger] sas[a].entities@.len() > 0)
        &&& self.free_entities@ == old.free_entities@.filter(stays_free(sw.records@, sw.next_entity_id))
        &&& self.resource_ids@ == old.resource_ids@
        &&& self.resources@ == old.resources@
        &&& self.component_ids@ == old.component_ids@
        &&& self.component_layouts@ == old.component_layouts@
        &&& self.dynamic_components@ == old.dynamic_components@
        &&& self.schemas@ == old.schemas@
        &&& self.serializable@ == old.serializable@
        &&& self.spawn_queue@ == old.spawn_queue@.filter(stays_queued(sw.records@, sw.next_entity_id))
        &&& self.despawn_queue@ == old.despawn_queue@
        &&& self.typed_queues@ == old.typed_queues@
        &&& self.links@ == old.links@
    }

    /// Loads the saved world `sw`, replacing the entities, their archetypes,
    /// the slot records and the tick, and keeping the registry, the
    /// resources and the command queues. Free-list and spawn-queue entries
    /// whose slots the save does not leave free for them are dropped. A
    /// saved world that does not fit the registry, or whose parts disagree,
    /// is refused with the first problem found, and the world is left as it
    /// was.
    pub fn load_from_serialized(&mut self, sw: SerializedWorld) -> (r: Result<(), LoadError>)
        requires
            old(self).wf(),
        ensures
            final(self).wf(),
            r is Ok <==> loadable(old(self), &sw),
            r is Err ==> *final(self) == *old(self) && r == Err::<(), LoadError>(load_error(old(self), &sw)),
            r is Ok ==> final(self).loaded_from(old(self), &sw),
    {
        match check_archetypes(self, &sw.archetypes) {
            Err(e) => {
                return Err(e);
            },
            Ok(()) => {},
        }
        if !check_placement(&sw.records, &sw.archetypes) {
            return Err(LoadError::Placement);
        }
        if !check_allocation(&sw.records, sw.next_entity_id) {
            return Err(LoadError::Allocation);
        }
        let kept_free = keep_free(&self.free_entities, &sw.records, sw.next_entity_id, true);
        let kept_queue = keep_free(&self.spawn_queue, &sw.records, sw.next_entity_id, false);
        let ghost prev = *self;
        let tick = sw.current_tick;
        self.current_tick = tick;
        proof {
            assert(archetypes_loadable(self, sw.archetypes@)) by {
                assert forall|a: int| 0 <= a < sw.archetypes@.len() implies archetype_loadable(
                    self,
                    &#[trigger] sw.archetypes@[a],
                    a,
                ) by {
                    assert(archetype_loadable(&prev, &sw.archetypes@[a], a));
                }
            }
            self.lemma_archetypes_wf_transfer(&prev);
        }
        let n = sw.archetypes.len();
        let mut archetypes: Vec<Archetype> = Vec::new();
        let mut active: Vec<u32> = Vec::new();
        let mut a: usize = 0;
        while a < n
            invariant
                self.wf(),
                self.current_tick == tick,
                archetypes_loadable(self, sw.archetypes@),
                n == sw.archetypes@.len(),
                0 <= a <= n,
                archetypes@.len() == a,
                forall|x: int|
                    0 <= x < a ==> {
                        &&& (#[trigger] archetypes@[x]).wf(x, self.component_layouts@)
                        &&& archetype_loaded(&archetypes@[x], &sw.archetypes@[x], x, tick)
                    },
                forall|i: int, j: int| 0 <= i < j < active@.len() ==> active@[i] < active@[j],
                forall|i: int| 0 <= i < active@.len() ==> #[trigger] active@[i] < a,
                forall|x: int|
                    0 <= x < a ==> (active@.contains(x as u32) <==> #[trigger] sw.archetypes@[x].entities@.len() > 0),
            decreases n - a,
        {
            proof {
                assert(archetype_loadable(self, &sw.archetypes@[a as int], a as int));
            }
            let arch = self.load_archetype(&sw.archetypes[a], a, tick);
            let ghost before = active@;
            if sw.archetypes[a].entities.len() > 0 {
                active.push(a as u32);
                proof {
                    assert(active@[active@.len() - 1] == a as u32);
                }
            }
            proof {
                assert forall|x: int|
                    0 <= x < a + 1 implies (active@.contains(x as u32) <==> #[trigger] sw.archetypes@[x].entities@.len() > 0) by {
                    if x < a {
                        if active@.contains(x as u32) {
                            let k = choose|k: int| 0 <= k < active@.len() && active@[k] == x as u32;
                            if k < before.len() {
                                assert(before[k] == x as u32);
                            }
                        }
                        if before.contains(x as u32) {
                            let k = choose|k: int| 0 <= k < before.len() && before[k] == x as u32;
                            assert(active@[k] == x as u32);
                        }
                    } else {
                        if active@.contains(x as u32) {
                            let k = choose|k: int| 0 <= k < active@.len() && active@[k] == x as u32;
                            if k < before.len() {
                                assert(before[k] < a);
                            }
                        }
                    }
                }
            }
            archetypes.push(arch);
            a = a + 1;
        }
        self.archetypes = archetypes;
        self.active_archetypes = active;
        self.records = sw.records;
        self.structural_gen = sw.structural_gen;
        self.next_entity_id = sw.next_entity_id;
        self.free_entities = kept_free;
        self.spawn_queue = kept_queue;
        proof {
            let sas = sw.archetypes@;
            assert forall|x: int| 0 <= x < self.n_archetypes() implies #[trigger] self.edges_wf(x) by {
                assert(archetype_loaded(&self.archetypes@[x], &sas[x], x, tick));
            }
            assert forall|x: int, y: int| 0 <= x < y < self.n_archetypes() implies self.archetypes@[x].signature@
                != self.archetypes@[y].signature@ by {
                assert(archetype_loaded(&self.archetypes@[x], &sas[x], x, tick));
                assert(archetype_loaded(&self.archetypes@[y], &sas[y], y, tick));
            }
            assert(archetype_loaded(&self.archetypes@[0], &sas[0], 0, tick));
            assert(self.archetypes_wf());
            assert forall|x: int, r: int|
                0 <= x < self.n_archetypes() && 0 <= r < self.archetypes@[x].entities@.len() implies {
                let e = #[trigger] self.archetypes@[x].entities@[r];
                &&& e.id < self.records@.len()
                &&& self.records@[e.id as int] == (EntityRecord {
                    generation: e.generation,
                    archetype_id: x as u32,
                    row: r as u32,
                })
            } by {
                assert(archetype_loaded(&self.archetypes@[x], &sas[x], x, tick));
                assert(self.archetypes@[x].entities@[r] == sas[x].entities@[r]);
            }
            assert forall|id: int|
                0 <= id < self.records@.len() && (#[trigger] self.records@[id]).archetype_id != NO_ARCHETYPE implies {
                let rec = self.records@[id];
                &&& rec.archetype_id < self.n_archetypes()
                &&& rec.row < self.archetypes@[rec.archetype_id as int].entities@.len()
                &&& self.archetypes@[rec.archetype_id as int].entities@[rec.row as int].id == id
            } by {
                let rec = self.records@[id];
                assert(archetype_loaded(&self.archetypes@[rec.archetype_id as int], &sas[rec.archetype_id as int], rec.archetype_id as int, tick));
            }
            assert forall|x: int| 0 <= x < self.n_archetypes() implies (#[trigger] self.archetypes@[x]).entities@.len() <= u32::MAX by {
                assert(archetype_loaded(&self.archetypes@[x], &sas[x], x, tick));
                assert(archetype_loadable(&prev, &sas[x], x));
            }
            assert(self.placement_wf());
            assert forall|x: int| 0 <= x < self.n_archetypes() implies (self.active_archetypes@.contains(x as u32)
                <==> #[trigger] self.archetypes@[x].entities@.len() > 0) by {
                assert(archetype_loaded(&self.archetypes@[x], &sas[x], x, tick));
                assert(sas[x].entities@.len() > 0 <==> self.active_archetypes@.contains(x as u32));
            }
            assert forall|i: int, j: int| 0 <= i < j < self.active_archetypes@.len() implies self.active_archetypes@[i]
                != self.active_archetypes@[j] by {
                assert(self.active_archetypes@[i] < self.active_archetypes@[j]);
            }
            assert(self.active_wf());
            let pf = stays_free(sw.records@, sw.next_entity_id);
            let pq = stays_queued(sw.records@, sw.next_entity_id);
            lemma_filter_ids(prev.free_entities@, pf);
            lemma_filter_ids(prev.spawn_queue@, pq);
            prev.free_entities@.filter_lemma(pf);
            prev.spawn_queue@.filter_lemma(pq);
            assert forall|i: int| 0 <= i < self.free_entities@.len() implies {
                let e = #[trigger] self.free_entities@[i];
                &&& e.id < self.records@.len()
                &&& self.slot_free_for(e)
            } by {
                assert(pf(self.free_entities@[i]));
            }
            assert forall|i: int| 0 <= i < self.spawn_queue@.len() implies {
                let e = #[trigger] self.spawn_queue@[i];
                &&& self.slot_free_for(e)
                &&& !has_id(self.free_entities@, e.id)
            } by {
                let e = self.spawn_queue@[i];
                assert(pq(e));
                assert(prev.spawn_queue@.filter(pq).contains(e));
                assert(prev.spawn_queue@.contains(e));
                let qi = prev.spawn_queue@.index_of(e);
                assert(!has_id(prev.free_entities@, prev.spawn_queue@[qi].id));
                if has_id(self.free_entities@, e.id) {
                    let k = choose|k: int| 0 <= k < self.free_entities@.len() && (#[trigger] self.free_entities@[k]).id == e.id;
                    let f = self.free_entities@[k];
                    assert(prev.free_entities@.filter(pf).contains(f));
                    assert(prev.free_entities@.contains(f));
                    let fi = prev.free_entities@.index_of(f);
                    assert(prev.free_entities@[fi].id == e.id);
                }
            }
            assert(self.allocator_wf());
        }
        Ok(())
    }
}

} // verus!
