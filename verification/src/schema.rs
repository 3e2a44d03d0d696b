use vstd::prelude::*;

use crate::archetype::ItemLayout;
use crate::world::{ComponentSchema, World};

verus! {

/// The id filed under `name` in `s`, the first entry of that name.
pub open spec fn name_lookup(s: Seq<(String, usize)>, name: Seq<char>) -> Option<usize>
    decreases s.len(),
{
    if s.len() == 0 {
        None
    } else {
        match name_lookup(s.drop_last(), name) {
            Some(id) => Some(id),
            None => if s.last().0@ == name {
                Some(s.last().1)
            } else {
                None
            },
        }
    }
}

/// The layout that a component registered by name with `size` and `align`
/// gets: that pair (an alignment of 0 read as 1) when it forms a layout,
/// else zero bytes at alignment 1.
pub open spec fn dynamic_layout(size: usize, align: usize) -> ItemLayout {
    let a = if align == 0 { 1usize } else { align };
    if (ItemLayout { size, align: a }).valid() {
        ItemLayout { size, align: a }
    } else {
        ItemLayout { size: 0, align: 1 }
    }
}

/// Whether `s` lists id `id`.
pub open spec fn lists_id(s: Seq<usize>, id: usize) -> bool {
    exists|i: int| 0 <= i < s.len() && s[i] == id
}

/// Whether some schema of `s` describes component `id`.
pub open spec fn has_schema(s: Seq<ComponentSchema>, id: usize) -> bool {
    exists|i: int| 0 <= i < s.len() && (#[trigger] s[i]).id == id
}

/// The id filed under `name` in `v`, found by a scan from the front.
fn find_name(v: &Vec<(String, usize)>, name: &String) -> (r: Option<usize>)
    ensures
        r == name_lookup(v@, name@),
{
    let n = v.len();
    let mut i: usize = 0;
    while i < n
        invariant
            n == v@.len(),
            0 <= i <= n,
            name_lookup(v@.take(i as int), name@) is None,
        decreases n - i,
    {
        proof {
            let t = v@.take(i + 1);
            assert(t.drop_last() =~= v@.take(i as int));
            assert(t.last() == v@[i as int]);
        }
        if v[i].0 == *name {
            proof {
                lemma_name_lookup_prefix(v@, name@, i + 1);
            }
            return Some(v[i].1);
        }
        i = i + 1;
    }
    proof {
        assert(v@.take(n as int) =~= v@);
    }
    None
}

/// A name found in a prefix is found, with the same id, in the whole.
proof fn lemma_name_lookup_prefix(s: Seq<(String, usize)>, name: Seq<char>, k: int)
    requires
        0 <= k <= s.len(),
        name_lookup(s.take(k), name) is Some,
    ensures
        name_lookup(s, name) == name_lookup(s.take(k), name),
    decreases s.len() - k,
{
    if k < s.len() {
        let t = s.take(k + 1);
        assert(t.drop_last() =~= s.take(k));
        lemma_name_lookup_prefix(s, name, k + 1);
    } else {
        assert(s.take(k) =~= s);
    }
}

impl World {
    /// The id of the component registered under `name`, registering it
    /// with `size` and `align` when new (see `dynamic_layout`).
    pub fn register_dynamic(&mut self, name: &str, size: usize, align: usize) -> (id: usize)
        requires
            old(self).wf(),
            old(self).n_components() + 1 < u32::MAX,
        ensures
            final(self).wf(),
            name_lookup(old(self).dynamic_components@, name@) matches Some(c)
                ==> id == c && *final(self) == *old(self),
            name_lookup(old(self).dynamic_components@, name@) is None ==> {
                &&& id == old(self).n_components()
                &&& final(self).component_layouts@ == old(self).component_layouts@.push(dynamic_layout(size, align))
                &&& final(self).dynamic_components@.len() == old(self).dynamic_components@.len() + 1
                &&& final(self).dynamic_components@.last().0@ == name@
                &&& final(self).dynamic_components@.last().1 == id
                &&& final(self).dynamic_components@.drop_last() == old(self).dynamic_components@
                &&& final(self).component_ids == old(self).component_ids
            },
            name_lookup(final(self).dynamic_components@, name@) == Some(id),
            final(self).same_entities(old(self)),
    {
        let owned = name.to_owned();
        match find_name(&self.dynamic_components, &owned) {
            Some(id) => {
                return id;
            },
            None => {},
        }
        let a: usize = if align == 0 { 1 } else { align };
        let layout = match ItemLayout::from_size_align(size, a) {
            Some(l) => l,
            None => ItemLayout { size: 0, align: 1 },
        };
        proof {
            assert(layout == dynamic_layout(size, align));
            assert((ItemLayout { size: 0, align: 1 }).valid()) by {
                assert(1usize & 0usize == 0usize) by (bit_vector);
            }
        }
        let ghost w0 = *self;
        let id = self.push_component_type(layout);
        let ghost w1 = *self;
        self.dynamic_components.push((owned, id));
        proof {
            let d = self.dynamic_components@;
            assert(d.drop_last() =~= w0.dynamic_components@);
            assert(name_lookup(d, name@) == Some(id));
            self.lemma_archetypes_wf_transfer(&w1);
            assert(self.registry_wf());
            crate::commands::lemma_same_entities_trans(self, &w1, &w0);
        }
        id
    }

    /// The id of component type `key` (registered with `layout` when new),
    /// with a schema under `name` describing it as `elements` elements of
    /// host array type `array_type`, unless one already describes it.
    #[verifier::loop_isolation(false)]
    pub fn register_schema(&mut self, key: u64, layout: ItemLayout, name: &str, array_type: u32, elements: u32) -> (id: usize)
        requires
            old(self).wf(),
            layout.valid(),
            old(self).n_components() + 1 < u32::MAX,
            old(self).layout_fits(key, layout),
        ensures
            final(self).wf(),
            final(self).component_id(key) == Some(id),
            has_schema(old(self).schemas@, id) ==> final(self).schemas@ == old(self).schemas@,
            !has_schema(old(self).schemas@, id) ==> {
                &&& final(self).schemas@.len() == old(self).schemas@.len() + 1
                &&& final(self).schemas@.drop_last() == old(self).schemas@
                &&& final(self).schemas@.last().id == id
                &&& final(self).schemas@.last().name@ == name@
                &&& final(self).schemas@.last().array_type == array_type
                &&& final(self).schemas@.last().elements == elements
                &&& final(self).schemas@.last().fields@.len() == 0
            },
            final(self).same_entities(old(self)),
            forall|k: u64| k != key ==> #[trigger] final(self).component_id(k) == old(self).component_id(k),
    {
        let ghost w0 = *self;
        let id = self.register(key, layout);
        let ghost w1 = *self;
        proof {
            assert forall|k: u64| k != key implies #[trigger] self.component_id(k) == w0.component_id(k) by {
                if w0.component_id(key) is None {
                    assert(self.component_id(k) == w0.component_id(k));
                }
            }
        }
        let n = self.schemas.len();
        let mut i: usize = 0;
        while i < n
            invariant
                n == self.schemas@.len(),
                0 <= i <= n,
                forall|j: int| 0 <= j < i ==> (#[trigger] self.schemas@[j]).id != id,
            decreases n - i,
        {
            if self.schemas[i].id == id {
                proof {
                    assert(has_schema(w0.schemas@, id));
                }
                return id;
            }
            i = i + 1;
        }
        self.schemas.push(ComponentSchema {
            id,
            name: name.to_owned(),
            array_type,
            elements,
            fields: Vec::new(),
        });
        proof {
            self.lemma_archetypes_wf_transfer(&w1);
            assert(self.schemas@.drop_last() =~= w0.schemas@);
            assert forall|k: u64| k != key implies #[trigger] self.component_id(k) == w0.component_id(k) by {
                assert(self.component_id(k) == w1.component_id(k));
            }
            crate::commands::lemma_same_entities_trans(self, &w1, &w0);
        }
        id
    }

    /// The id of component type `key` (registered with `layout` when new),
    /// marked as one whose values a saved world carries.
    #[verifier::loop_isolation(false)]
    pub fn register_serializable(&mut self, key: u64, layout: ItemLayout) -> (id: usize)
        requires
            old(self).wf(),
            layout.valid(),
            old(self).n_components() + 1 < u32::MAX,
            old(self).layout_fits(key, layout),
        ensures
            final(self).wf(),
            final(self).component_id(key) == Some(id),
            lists_id(final(self).serializable@, id),
            forall|c: usize| c != id ==> (lists_id(final(self).serializable@, c) == lists_id(old(self).serializable@, c)),
            final(self).same_entities(old(self)),
            forall|k: u64| k != key ==> #[trigger] final(self).component_id(k) == old(self).component_id(k),
    {
        let ghost w0 = *self;
        let id = self.register(key, layout);
        let ghost w1 = *self;
        proof {
            assert forall|k: u64| k != key implies #[trigger] self.component_id(k) == w0.component_id(k) by {
                if w0.component_id(key) is None {
                    assert(self.component_id(k) == w0.component_id(k));
                }
            }
        }
        let n = self.serializable.len();
        let mut i: usize = 0;
        while i < n
            invariant
                n == self.serializable@.len(),
                0 <= i <= n,
                forall|j: int| 0 <= j < i ==> self.serializable@[j] != id,
            decreases n - i,
        {
            if self.serializable[i] == id {
                proof {
                    assert(lists_id(self.serializable@, id));
                }
                return id;
            }
            i = i + 1;
        }
        self.serializable.push(id);
        proof {
            self.lemma_archetypes_wf_transfer(&w1);
            crate::commands::lemma_same_entities_trans(self, &w1, &w0);
            let s = self.serializable@;
            assert(s[n as int] == id);
            assert forall|k: u64| k != key implies #[trigger] self.component_id(k) == w0.component_id(k) by {
                assert(self.component_id(k) == w1.component_id(k));
            }
            assert forall|c: usize| c != id implies (lists_id(s, c) == lists_id(w0.serializable@, c)) by {
                if lists_id(s, c) {
                    let j = choose|j: int| 0 <= j < s.len() && s[j] == c;
                    assert(j < n);
                    assert(w0.serializable@[j] == c);
                }
                if lists_id(w0.serializable@, c) {
                    let j = choose|j: int| 0 <= j < w0.serializable@.len() && w0.serializable@[j] == c;
                    assert(s[j] == c);
                }
            }
        }
        id
    }
}

} // verus!
