use vstd::prelude::*;

use crate::archetype::{is_power_of_two, ItemLayout};
use crate::entity::Entity;
use crate::world::World;

verus! {

/// The component type of the first fragmentation marker; marker `k` has
/// the type `k` places after it.
pub const MARKER_KEYS: u64 = 0x4d41_524b_0000;

/// The component type of fragmentation marker `k`.
pub open spec fn marker_key(k: int) -> u64 {
    (MARKER_KEYS + k) as u64
}

/// The layout of a marker: it holds no bytes.
pub open spec fn marker_layout() -> ItemLayout {
    ItemLayout { size: 0, align: 1 }
}

/// The marker that index `idx` picks: the marker of that index up to the
/// last one, 25, and the last one past it.
pub open spec fn marker_for_index(idx: usize) -> int {
    if idx < 25 {
        idx as int
    } else {
        25
    }
}

/// Bit `k` of `bits` is set.
pub open spec fn bit_set(bits: u32, k: int) -> bool {
    (bits >> (k as u32)) & 1u32 == 1u32
}

/// The marker layout, which is valid.
fn marker_layout_exec() -> (l: ItemLayout)
    ensures
        l == marker_layout(),
        l.valid(),
{
    let l = ItemLayout { size: 0, align: 1 };
    assert(is_power_of_two(1usize)) by (bit_vector);
    l
}

/// Gives `e` the fragmentation marker that `idx` picks.
pub fn add_marker_by_index(world: &mut World, e: Entity, idx: usize)
    requires
        old(world).wf(),
        old(world).has_room(),
        old(world).layout_fits(marker_key(marker_for_index(idx)), marker_layout()),
    ensures
        final(world).wf(),
        final(world).added_from(old(world), e, marker_key(marker_for_index(idx)), Seq::empty()),
{
    let k: u64 = if idx < 25 {
        idx as u64
    } else {
        25
    };
    let layout = marker_layout_exec();
    let empty: Vec<u8> = Vec::new();
    world.add_component(e, MARKER_KEYS + k, layout, empty.as_slice());
}

/// Gives `e` the fragmentation marker `k` for each of the lowest eight
/// bits `k` of `bits` that is set, the lowest first.
pub fn add_marker_bits(world: &mut World, e: Entity, bits: u32)
    requires
        old(world).wf(),
        old(world).n_components() + 8 < u32::MAX,
        old(world).n_archetypes() + 8 < u32::MAX,
        forall|k: int| 0 <= k < 8 ==> old(world).layout_fits(#[trigger] marker_key(k), marker_layout()),
    ensures
        final(world).wf(),
        !old(world).alive(e) ==> *final(world) == *old(world),
        old(world).alive(e) ==> {
            &&& final(world).alive(e)
            &&& forall|k: int|
                0 <= k < 8 && bit_set(bits, k) ==> (final(world).component_id(#[trigger] marker_key(k)) matches Some(c)
                    && final(world).has(e, c))
            &&& forall|d: usize|
                #[trigger] final(world).has(e, d) <==> (old(world).has(e, d) || exists|k: int|
                    0 <= k < 8 && bit_set(bits, k) && final(world).component_id(#[trigger] marker_key(k)) == Some(d))
            &&& final(world).same_except(old(world), e.id)
        },
{
    let ghost w0 = *world;
    if !world.is_alive(e) {
        return;
    }
    let layout = marker_layout_exec();
    let mut k: u32 = 0;
    while k < 8
        invariant
            0 <= k <= 8,
            world.wf(),
            w0.wf(),
            w0.alive(e),
            world.alive(e),
            layout == marker_layout(),
            layout.valid(),
            world.n_components() <= w0.n_components() + k,
            world.n_archetypes() <= w0.n_archetypes() + k,
            w0.n_components() + 8 < u32::MAX,
            w0.n_archetypes() + 8 < u32::MAX,
            forall|j: int| k <= j < 8 ==> world.layout_fits(#[trigger] marker_key(j), marker_layout()),
            forall|j: int|
                0 <= j < k && bit_set(bits, j) ==> (world.component_id(#[trigger] marker_key(j)) matches Some(c)
                    && world.has(e, c)),
            forall|d: usize|
                #[trigger] world.has(e, d) <==> (w0.has(e, d) || exists|j: int|
                    0 <= j < k && bit_set(bits, j) && world.component_id(#[trigger] marker_key(j)) == Some(d)),
            world.same_except(&w0, e.id),
        decreases 8 - k,
    {
        let ghost w1 = *world;
        if (bits >> k) & 1 == 1 {
            let empty: Vec<u8> = Vec::new();
            world.add_component(e, MARKER_KEYS + k as u64, layout, empty.as_slice());
            proof {
                let key = marker_key(k as int);
                let c = world.component_id(key)->Some_0;
                assert forall|j: int| (k + 1) <= j < 8 implies world.layout_fits(#[trigger] marker_key(j), marker_layout()) by {
                    assert(marker_key(j) != key);
                    assert(w1.layout_fits(marker_key(j), marker_layout()));
                }
                assert forall|j: int|
                    0 <= j < k + 1 && bit_set(bits, j) implies (world.component_id(#[trigger] marker_key(j)) matches Some(cj)
                        && world.has(e, cj)) by {
                    if j < k {
                        assert(marker_key(j) != key);
                        assert(w1.component_id(marker_key(j)) matches Some(cj) && w1.has(e, cj));
                    }
                }
                assert forall|d: usize|
                    #[trigger] world.has(e, d) <==> (w0.has(e, d) || exists|j: int|
                        0 <= j < k + 1 && bit_set(bits, j) && world.component_id(#[trigger] marker_key(j)) == Some(d)) by {
                    assert(world.has(e, d) <==> (w1.has(e, d) || d == c));
                    if exists|j: int| 0 <= j < k && bit_set(bits, j) && w1.component_id(#[trigger] marker_key(j)) == Some(d) {
                        let j = choose|j: int| 0 <= j < k && bit_set(bits, j) && w1.component_id(#[trigger] marker_key(j)) == Some(d);
                        assert(marker_key(j) != key);
                        assert(world.component_id(marker_key(j)) == Some(d));
                    }
                    if exists|j: int| 0 <= j < k + 1 && bit_set(bits, j) && world.component_id(#[trigger] marker_key(j)) == Some(d) {
                        let j = choose|j: int| 0 <= j < k + 1 && bit_set(bits, j) && world.component_id(#[trigger] marker_key(j)) == Some(d);
                        if j < k {
                            assert(marker_key(j) != key);
                            assert(w1.component_id(marker_key(j)) == Some(d));
                        }
                    }
                    if d == c {
                        assert(bit_set(bits, k as int) && world.component_id(marker_key(k as int)) == Some(d));
                    }
                }
                assert forall|x: Entity| x.id != e.id implies #[trigger] world.same_entity(&w0, x) by {
                    assert(world.same_entity(&w1, x));
                    assert(w1.same_entity(&w0, x));
                    assert forall|d: usize| #[trigger] world.has(x, d) == w0.has(x, d) by {
                        assert(w1.has(x, d) == w0.has(x, d));
                    }
                    assert forall|d: usize| #[trigger] world.has(x, d) implies world.cell(x, d) == w0.cell(x, d) by {
                        assert(w1.has(x, d));
                    }
                }
            }
        } else {
            proof {
                assert forall|d: usize|
                    #[trigger] world.has(e, d) <==> (w0.has(e, d) || exists|j: int|
                        0 <= j < k + 1 && bit_set(bits, j) && world.component_id(#[trigger] marker_key(j)) == Some(d)) by {
                    if exists|j: int| 0 <= j < k + 1 && bit_set(bits, j) && world.component_id(#[trigger] marker_key(j)) == Some(d) {
                        let j = choose|j: int| 0 <= j < k + 1 && bit_set(bits, j) && world.component_id(#[trigger] marker_key(j)) == Some(d);
                        assert(j != k);
                    }
                }
            }
        }
        k = k + 1;
    }
}

} // verus!
