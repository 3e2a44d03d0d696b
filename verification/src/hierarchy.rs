use vstd::prelude::*;

use crate::archetype::{is_power_of_two, ItemLayout};
use crate::entity::Entity;
use crate::world::{Links, World, CHILDREN_KEY, PARENT_KEY};

verus! {

/// The layout of the `Parent` and `Children` markers: no bytes.
pub open spec fn marker_layout() -> ItemLayout {
    ItemLayout { size: 0, align: 1 }
}

fn new_marker_layout() -> (l: ItemLayout)
    ensures
        l == marker_layout(),
        l.valid(),
{
    assert(1usize & 0usize == 0) by (bit_vector);
    assert(is_power_of_two(1));
    ItemLayout { size: 0, align: 1 }
}

/// Whether `v` holds `x`.
pub fn contains_entity(v: &Vec<Entity>, x: Entity) -> (b: bool)
    ensures
        b == v@.contains(x),
{
    let mut i: usize = 0;
    while i < v.len()
        invariant
            0 <= i <= v@.len(),
            forall|j: int| 0 <= j < i ==> v@[j] != x,
        decreases v@.len() - i,
    {
        if v[i] == x {
            assert(v@[i as int] == x);
            return true;
        }
        i = i + 1;
    }
    proof {
        if v@.contains(x) {
            let k = v@.index_of(x);
            assert(v@[k] == x);
        }
    }
    false
}

/// The entities other than `x`.
pub open spec fn other_than(x: Entity) -> spec_fn(Entity) -> bool {
    |y: Entity| y != x
}

/// `x` occurs in `s` at most once.
pub open spec fn at_most_once(s: Seq<Entity>, x: Entity) -> bool {
    forall|i: int, j: int| 0 <= i < s.len() && 0 <= j < s.len() && s[i] == x && s[j] == x ==> i == j
}

/// With `x` filtered out, `x` no longer occurs.
proof fn lemma_filtered_lacks(s: Seq<Entity>, x: Entity)
    ensures
        !s.filter(other_than(x)).contains(x),
        at_most_once(s.filter(other_than(x)), x),
{
    let f = s.filter(other_than(x));
    assert forall|i: int| 0 <= i < f.len() implies f[i] != x by {
        s.lemma_filter_pred(other_than(x), i);
    }
}

/// Filtering out an `x` that does not occur changes nothing.
proof fn lemma_filter_absent(s: Seq<Entity>, x: Entity)
    requires
        !s.contains(x),
    ensures
        s.filter(other_than(x)) == s,
    decreases s.len(),
{
    reveal(Seq::filter);
    if s.len() > 0 {
        let init = s.drop_last();
        assert(!init.contains(x)) by {
            if init.contains(x) {
                let i = init.index_of(x);
                assert(s[i] == x);
            }
        }
        lemma_filter_absent(init, x);
        assert(s.last() != x) by {
            assert(s[s.len() - 1] == s.last());
        }
        assert(init.push(s.last()) =~= s);
    }
}

/// Filtering out `x` after appending it gives what filtering out `x` gave
/// before; filtering out `x` twice, what filtering once gave.
proof fn lemma_filter_push_same(s: Seq<Entity>, x: Entity)
    ensures
        s.push(x).filter(other_than(x)) == s.filter(other_than(x)),
        s.filter(other_than(x)).filter(other_than(x)) == s.filter(other_than(x)),
{
    reveal(Seq::filter);
    assert(s.push(x).drop_last() =~= s);
    lemma_filtered_lacks(s, x);
    lemma_filter_absent(s.filter(other_than(x)), x);
}

/// `v` without the entries equal to `x`, in their order.
pub fn without_entity(v: &Vec<Entity>, x: Entity) -> (r: Vec<Entity>)
    ensures
        r@ == v@.filter(other_than(x)),
        forall|y: Entity| #[trigger] r@.contains(y) <==> (v@.contains(y) && y != x),
{
    let mut r: Vec<Entity> = Vec::new();
    let mut i: usize = 0;
    while i < v.len()
        invariant
            0 <= i <= v@.len(),
            r@ == v@.subrange(0, i as int).filter(other_than(x)),
            forall|y: Entity| #[trigger] r@.contains(y) <==> (v@.subrange(0, i as int).contains(y) && y != x),
        decreases v@.len() - i,
    {
        let e = v[i];
        let ghost prev = r@;
        if e != x {
            r.push(e);
        }
        proof {
            reveal(Seq::filter);
            assert(v@.subrange(0, i + 1).drop_last() =~= v@.subrange(0, i as int));
            assert(v@.subrange(0, i + 1).last() == e);
            assert forall|y: Entity| #[trigger] r@.contains(y) <==> (v@.subrange(0, i + 1).contains(y) && y != x) by {
                if v@.subrange(0, i + 1).contains(y) {
                    let k = v@.subrange(0, i + 1).index_of(y);
                    if k < i {
                        assert(v@.subrange(0, i as int)[k] == y);
                    }
                }
                if v@.subrange(0, i as int).contains(y) {
                    let k = v@.subrange(0, i as int).index_of(y);
                    assert(v@.subrange(0, i + 1)[k] == y);
                }
                if e != x {
                    if r@.contains(y) && y != e {
                        let k = r@.index_of(y);
                        assert(prev[k] == y);
                    }
                    if prev.contains(y) {
                        let k = prev.index_of(y);
                        assert(r@[k] == y);
                    }
                    assert(r@[r@.len() - 1] == e);
                    assert(v@.subrange(0, i + 1)[i as int] == e);
                } else {
                    assert(v@.subrange(0, i + 1)[i as int] == e);
                }
            }
        }
        i = i + 1;
    }
    assert(v@.subrange(0, v@.len() as int) =~= v@);
    r
}

impl World {
    /// Component `d` is one of the two hierarchy markers.
    pub open spec fn is_marker(&self, d: usize) -> bool {
        self.component_id(PARENT_KEY) == Some(d) || self.component_id(CHILDREN_KEY) == Some(d)
    }

    /// Between `old` and `self` no entity was born or died, and only the
    /// hierarchy markers changed.
    pub open spec fn hierarchy_frame(&self, old: &World) -> bool {
        &&& forall|x: Entity| #[trigger] self.alive(x) == old.alive(x)
        &&& forall|x: Entity, d: usize| !self.is_marker(d) ==> #[trigger] self.has(x, d) == old.has(x, d)
        &&& forall|x: Entity, d: usize|
            !self.is_marker(d) && old.has(x, d) ==> #[trigger] self.cell(x, d) == old.cell(x, d)
        &&& forall|k: u64| k != PARENT_KEY && k != CHILDREN_KEY ==> #[trigger] self.component_id(k) == old.component_id(k)
        &&& forall|d: usize| old.is_marker(d) ==> #[trigger] self.is_marker(d)
    }

    /// The hierarchy frame holds across two steps.
    pub proof fn lemma_hierarchy_frame_trans(&self, mid: &World, old: &World)
        requires
            self.hierarchy_frame(mid),
            mid.hierarchy_frame(old),
        ensures
            self.hierarchy_frame(old),
    {
        assert forall|x: Entity, d: usize| !self.is_marker(d) implies #[trigger] self.has(x, d) == old.has(x, d) by {
            assert(!mid.is_marker(d));
            assert(self.has(x, d) == mid.has(x, d));
            assert(mid.has(x, d) == old.has(x, d));
        }
        assert forall|x: Entity, d: usize|
            !self.is_marker(d) && old.has(x, d) implies #[trigger] self.cell(x, d) == old.cell(x, d) by {
            assert(!mid.is_marker(d));
            assert(mid.has(x, d) == old.has(x, d));
            assert(self.cell(x, d) == mid.cell(x, d));
            assert(mid.cell(x, d) == old.cell(x, d));
        }
        assert forall|x: Entity| #[trigger] self.alive(x) == old.alive(x) by {
            assert(self.alive(x) == mid.alive(x));
        }
        assert forall|k: u64| k != PARENT_KEY && k != CHILDREN_KEY implies #[trigger] self.component_id(k) == old.component_id(k) by {
            assert(self.component_id(k) == mid.component_id(k));
        }
        assert forall|d: usize| old.is_marker(d) implies #[trigger] self.is_marker(d) by {
            assert(mid.is_marker(d));
        }
    }

    /// Grows the hierarchy links so that slot `id` has an entry.
    fn ensure_links(&mut self, id: u32)
        ensures
            (id as int) < final(self).links@.len(),
            final(self).links@.len() >= old(self).links@.len(),
            forall|k: int| 0 <= k < old(self).links@.len() ==> #[trigger] final(self).links@[k] == old(self).links@[k],
            forall|k: int|
                old(self).links@.len() <= k < final(self).links@.len() ==> {
                    &&& (#[trigger] final(self).links@[k]).parent is None
                    &&& final(self).links@[k].children@.len() == 0
                },
            *final(self) == (World { links: final(self).links, ..*old(self) }),
    {
        while self.links.len() <= id as usize
            invariant
                self.links@.len() >= old(self).links@.len(),
                forall|k: int| 0 <= k < old(self).links@.len() ==> #[trigger] self.links@[k] == old(self).links@[k],
                forall|k: int|
                    old(self).links@.len() <= k < self.links@.len() ==> {
                        &&& (#[trigger] self.links@[k]).parent is None
                        &&& self.links@[k].children@.len() == 0
                    },
                *self == (World { links: self.links, ..*old(self) }),
            decreases (id as int) + 1 - self.links@.len(),
        {
            self.links.push(Links { parent: None, children: Vec::new() });
        }
    }

    /// Setting a marker's change tick keeps the hierarchy frame.
    pub proof fn lemma_frame_set(&self, old: &World, e: Entity, c: usize)
        requires
            old.is_marker(c),
            old.has(e, c),
            self.has(e, c),
            self.alive(e),
            self.same_except(old, e.id),
            self.same_but_component(old, e, c),
            self.component_ids == old.component_ids,
        ensures
            self.hierarchy_frame(old),
    {
        assert forall|x: Entity| #[trigger] self.alive(x) == old.alive(x) by {
            if x.id != e.id {
                assert(self.same_entity(old, x));
            }
        }
        assert forall|x: Entity, d: usize| !self.is_marker(d) implies #[trigger] self.has(x, d) == old.has(x, d) by {
            if x.id != e.id {
                assert(self.same_entity(old, x));
            } else if x != e {
                assert(!self.alive(x) && !old.alive(x));
            }
        }
        assert forall|x: Entity, d: usize|
            !self.is_marker(d) && old.has(x, d) implies #[trigger] self.cell(x, d) == old.cell(x, d) by {
            assert(self.is_marker(c));
            if x.id != e.id {
                assert(self.same_entity(old, x));
                assert(self.has(x, d) == old.has(x, d));
            } else if x != e {
                assert(!old.alive(x));
            } else {
                assert(d != c);
                assert(old.has(e, d));
                assert(self.cell(e, d) == old.cell(e, d));
            }
        }
    }

    /// Adding a marker keeps the hierarchy frame.
    pub proof fn lemma_frame_add(&self, old: &World, e: Entity, key: u64, c: usize)
        requires
            key == PARENT_KEY || key == CHILDREN_KEY,
            old.alive(e),
            self.alive(e),
            self.component_id(key) == Some(c),
            forall|d: usize| #[trigger] self.has(e, d) <==> (old.has(e, d) || d == c),
            forall|d: usize| d != c && old.has(e, d) ==> #[trigger] self.cell(e, d) == old.cell(e, d),
            self.same_except(old, e.id),
            forall|k: u64| k != key ==> #[trigger] self.component_id(k) == old.component_id(k),
            old.component_id(key) is Some ==> self.component_id(key) == old.component_id(key),
        ensures
            self.hierarchy_frame(old),
    {
        assert forall|x: Entity| #[trigger] self.alive(x) == old.alive(x) by {
            if x.id != e.id {
                assert(self.same_entity(old, x));
            }
        }
        assert forall|x: Entity, d: usize| !self.is_marker(d) implies #[trigger] self.has(x, d) == old.has(x, d) by {
            if x.id != e.id {
                assert(self.same_entity(old, x));
            } else if x != e {
                assert(!self.alive(x) && !old.alive(x));
            }
        }
        assert forall|x: Entity, d: usize|
            !self.is_marker(d) && old.has(x, d) implies #[trigger] self.cell(x, d) == old.cell(x, d) by {
            assert(self.is_marker(c));
            if x.id != e.id {
                assert(self.same_entity(old, x));
                assert(self.has(x, d) == old.has(x, d));
            } else if x != e {
                assert(!old.alive(x));
            } else {
                assert(d != c);
                assert(old.has(e, d));
                assert(self.cell(e, d) == old.cell(e, d));
            }
        }
        assert forall|d: usize| old.is_marker(d) implies #[trigger] self.is_marker(d) by {
            if key == PARENT_KEY {
                assert(self.component_id(CHILDREN_KEY) == old.component_id(CHILDREN_KEY));
                if old.component_id(PARENT_KEY) == Some(d) {
                    assert(old.component_id(PARENT_KEY) is Some);
                }
            } else {
                assert(self.component_id(PARENT_KEY) == old.component_id(PARENT_KEY));
            }
        }
    }

    /// Removing the parent marker keeps the hierarchy frame.
    pub proof fn lemma_frame_remove(&self, old: &World, e: Entity)
        requires
            old.alive(e),
            self.alive(e),
            forall|d: usize|
                #[trigger] self.has(e, d) <==> (old.has(e, d) && Some(d) != old.component_id(PARENT_KEY)),
            forall|d: usize| #[trigger] self.has(e, d) ==> self.cell(e, d) == old.cell(e, d),
            self.same_except(old, e.id),
            self.component_ids == old.component_ids,
        ensures
            self.hierarchy_frame(old),
    {
        assert forall|x: Entity| #[trigger] self.alive(x) == old.alive(x) by {
            if x.id != e.id {
                assert(self.same_entity(old, x));
            }
        }
        assert forall|x: Entity, d: usize| !self.is_marker(d) implies #[trigger] self.has(x, d) == old.has(x, d) by {
            if x.id != e.id {
                assert(self.same_entity(old, x));
            } else if x != e {
                assert(!self.alive(x) && !old.alive(x));
            }
        }
        assert forall|x: Entity, d: usize|
            !self.is_marker(d) && old.has(x, d) implies #[trigger] self.cell(x, d) == old.cell(x, d) by {
            if x.id != e.id {
                assert(self.same_entity(old, x));
                assert(self.has(x, d) == old.has(x, d));
            } else if x != e {
                assert(!old.alive(x));
            } else {
                assert(self.has(e, d));
            }
        }
    }

    /// Changing nothing but the hierarchy links keeps the world sound and
    /// every handle as it reads.
    pub proof fn lemma_links_only(&self, old: &World)
        requires
            old.wf(),
            *self == (World { links: self.links, ..*old }),
        ensures
            self.wf(),
            self.same_entities(old),
            self.hierarchy_frame(old),
    {
        self.lemma_archetypes_wf_transfer(old);
        assert forall|x: Entity| #[trigger] self.same_entity(old, x) by {}
    }

    /// The hierarchy frame holds from a world to itself.
    pub proof fn lemma_frame_refl(&self)
        ensures
            self.hierarchy_frame(self),
    {
    }

    /// Links of `self` and `old` agree except for the children list of slot
    /// `id`.
    pub open spec fn links_except_children(&self, old: &World, id: int) -> bool {
        &&& self.links@.len() == old.links@.len()
        &&& forall|k: int| 0 <= k < old.links@.len() ==> #[trigger] self.links@[k].parent == old.links@[k].parent
        &&& forall|k: int| 0 <= k < old.links@.len() && k != id ==> #[trigger] self.links@[k] == old.links@[k]
    }

    /// Takes live `child` out of the children list of the parent its
    /// `Parent` marker names, when that parent is live and carries
    /// `Children`, marking the list changed.
    fn leave_parent(&mut self, child: Entity)
        requires
            old(self).wf(),
            old(self).alive(child),
            old(self).layout_fits(CHILDREN_KEY, marker_layout()),
        ensures
            final(self).wf(),
            final(self).hierarchy_frame(old(self)),
            final(self).alive(child),
            final(self).component_ids == old(self).component_ids,
            final(self).component_layouts == old(self).component_layouts,
            final(self).n_archetypes() == old(self).n_archetypes(),
            final(self).current_tick == old(self).current_tick,
            old(self).has_parent(child) && old(self).parent_of(child) is Some ==> final(self).links_except_children(
                old(self),
                old(self).parent_of(child)->Some_0.id as int,
            ),
            !(old(self).has_parent(child) && old(self).parent_of(child) is Some) ==> final(self).links == old(self).links,
            forall|op: Entity|
                old(self).has_parent(child) && old(self).parent_of(child) == Some(op) && old(self).alive(op)
                    && old(self).has_children(op) ==> !#[trigger] final(self).children_of(op).contains(child),
            forall|x: Entity| #[trigger] final(self).has_parent(x) == old(self).has_parent(x),
            forall|x: Entity| #[trigger] final(self).has_children(x) == old(self).has_children(x),
            forall|x: Entity|
                #[trigger] final(self).children_of(x) == old(self).children_of(x) || final(self).children_of(x)
                    == old(self).children_of(x).filter(other_than(child)),
    {
        let ghost w0 = *self;
        let empty: Vec<u8> = Vec::new();
        let mut old_parent_opt: Option<Entity> = None;
        match self.get_component_id(PARENT_KEY) {
            Some(pc) => {
                if self.get_component_by_id(child, pc).is_some() && (child.id as usize) < self.links.len() {
                    old_parent_opt = self.links[child.id as usize].parent;
                }
            },
            None => {},
        }
        proof {
            assert(old_parent_opt == if w0.has_parent(child) { w0.parent_of(child) } else { None });
            self.lemma_frame_refl();
        }
        if let Some(op) = old_parent_opt {
            if self.is_alive(op) {
                if let Some(cc) = self.get_component_id(CHILDREN_KEY) {
                    if self.get_component_by_id(op, cc).is_some() {
                        if (op.id as usize) < self.links.len() {
                            let kept = without_entity(&self.links[op.id as usize].children, child);
                            self.links[op.id as usize].children = kept;
                            proof {
                                assert(self.links@[op.id as int].children@ == w0.links@[op.id as int].children@.filter(
                                    other_than(child),
                                ));
                            }
                        }
                        let ghost wa = *self;
                        proof {
                            wa.lemma_links_only(&w0);
                            assert(self.component_layouts@[cc as int] == marker_layout());
                            assert(wa.is_marker(cc));
                        }
                        self.set_component(op, cc, empty.as_slice());
                        proof {
                            self.lemma_frame_set(&wa, op, cc);
                            assert(wa.hierarchy_frame(&w0)) by {
                                assert forall|x: Entity| #[trigger] wa.alive(x) == w0.alive(x) by {}
                                assert forall|x: Entity, d: usize| !wa.is_marker(d) implies #[trigger] wa.has(x, d) == w0.has(x, d) by {}
                                assert forall|x: Entity, d: usize| !wa.is_marker(d) && w0.has(x, d) implies #[trigger] wa.cell(x, d) == w0.cell(x, d) by {}
                            }
                            self.lemma_hierarchy_frame_trans(&wa, &w0);
                            assert forall|x: Entity| #[trigger] self.has_parent(x) == w0.has_parent(x) by {
                                if x.id != op.id {
                                    assert(self.same_entity(&wa, x));
                                } else if x == op {
                                    if let Some(pc) = w0.component_id(PARENT_KEY) {
                                        assert(self.has(x, pc) == w0.has(x, pc)) by {
                                            if pc != cc {
                                                assert(self.has(op, pc) == wa.has(op, pc));
                                            }
                                        }
                                    }
                                } else {
                                    assert(!self.alive(x) && !w0.alive(x));
                                }
                            }
                            assert forall|x: Entity| #[trigger] self.has_children(x) == w0.has_children(x) by {
                                if x.id != op.id {
                                    assert(self.same_entity(&wa, x));
                                } else if x != op {
                                    assert(!self.alive(x) && !w0.alive(x));
                                }
                            }
                            if (op.id as int) < w0.links@.len() {
                                assert(self.links_except_children(&w0, op.id as int));
                            } else {
                                assert(self.links == w0.links);
                            }
                        }
                        return;
                    }
                }
            }
            proof {
                assert(self.links_except_children(&w0, op.id as int));
            }
        }
    }

    /// Makes live `np` the parent of live `child`: `child` gains `Parent`
    /// naming `np`, and `np` lists `child` among its children, gaining
    /// `Children` when it had none or marking its list changed.
    #[verifier::rlimit(60)]
    fn join_parent(&mut self, child: Entity, np: Entity)
        requires
            old(self).wf(),
            old(self).alive(child),
            old(self).alive(np),
            old(self).n_components() + 2 < u32::MAX,
            old(self).n_archetypes() + 2 < u32::MAX,
            old(self).layout_fits(PARENT_KEY, marker_layout()),
            old(self).layout_fits(CHILDREN_KEY, marker_layout()),
        ensures
            final(self).wf(),
            final(self).hierarchy_frame(old(self)),
            final(self).has_parent(child),
            final(self).parent_of(child) == Some(np),
            final(self).has_children(np),
            final(self).children_of(np).contains(child),
            forall|x: Entity|
                x.id != child.id && x.id != np.id ==> #[trigger] final(self).children_of(x) == old(self).children_of(x),
            np.id != child.id ==> final(self).children_of(child) == old(self).children_of(child),
            at_most_once(old(self).children_of(np), child) ==> at_most_once(final(self).children_of(np), child),
            old(self).has_children(np) ==> final(self).children_of(np) == if old(self).children_of(np).contains(child) {
                old(self).children_of(np)
            } else {
                old(self).children_of(np).push(child)
            },
            !old(self).has_children(np) ==> final(self).children_of(np) == seq![child],
    {
        let ghost w0 = *self;
        let empty: Vec<u8> = Vec::new();
        let zst = new_marker_layout();
        self.add_component(child, PARENT_KEY, zst, empty.as_slice());
        let ghost w1 = *self;
        proof {
            let pc = self.component_id(PARENT_KEY)->Some_0;
            self.lemma_frame_add(&w0, child, PARENT_KEY, pc);
            assert(self.alive(np)) by {
                if np.id != child.id {
                    assert(self.same_entity(&w0, np));
                }
            }
            assert(self.layout_fits(CHILDREN_KEY, marker_layout())) by {
                assert(self.component_id(CHILDREN_KEY) == w0.component_id(CHILDREN_KEY));
            }
            assert(self.has_parent(child));
        }
        self.ensure_links(child.id);
        self.links[child.id as usize].parent = Some(np);
        let ghost w2 = *self;
        proof {
            w2.lemma_links_only(&w1);
            assert(w2.same_entity(&w1, np));
            assert(w2.same_entity(&w1, child));
            assert(w2.alive(np));
            assert(w2.same_entities(&w1)) by {
                assert forall|x: Entity| #[trigger] w2.same_entity(&w1, x) by {}
            }
            assert(w2.has_children(np) == w0.has_children(np)) by {
                assert(w1.component_id(CHILDREN_KEY) == w0.component_id(CHILDREN_KEY));
                assert(w2.component_id(CHILDREN_KEY) == w1.component_id(CHILDREN_KEY));
                if let Some(cc) = w0.component_id(CHILDREN_KEY) {
                    assert(w2.has(np, cc) == w1.has(np, cc));
                    if np.id != child.id {
                        assert(w1.same_entity(&w0, np));
                    } else {
                        assert(np == child);
                        let pc = w1.component_id(PARENT_KEY)->Some_0;
                        crate::spawn::lemma_lookup_distinct(w1.component_ids@, PARENT_KEY, CHILDREN_KEY);
                        assert(cc != pc);
                    }
                    assert(w1.has(np, cc) == w0.has(np, cc));
                }
            }
        }
        let cc_opt = self.get_component_id(CHILDREN_KEY);
        let has_kids = match cc_opt {
            Some(cc) => self.get_component_by_id(np, cc).is_some(),
            None => false,
        };
        if has_kids {
            let cc = cc_opt.unwrap();
            proof {
                assert(self.component_layouts@[cc as int] == marker_layout());
            }
            self.set_component(np, cc, empty.as_slice());
            let ghost w3 = *self;
            proof {
                self.lemma_frame_set(&w2, np, cc);
            }
            self.ensure_links(np.id);
            let ghost before = self.links@[np.id as int].children@;
            proof {
                assert(before == w0.children_of(np)) by {
                    assert(w3.links == w2.links);
                    if (np.id as int) < w0.links@.len() {
                        assert(w1.links@[np.id as int] == w0.links@[np.id as int]);
                    }
                }
            }
            if !contains_entity(&self.links[np.id as usize].children, child) {
                self.links[np.id as usize].children.push(child);
                proof {
                    let v = self.links@[np.id as int].children@;
                    assert(v[v.len() - 1] == child);
                    assert(v == before.push(child));
                    assert forall|i: int, j: int|
                        0 <= i < v.len() && 0 <= j < v.len() && v[i] == child && v[j] == child implies i == j by {
                        if i < before.len() {
                            assert(before[i] == child);
                        }
                        if j < before.len() {
                            assert(before[j] == child);
                        }
                    }
                }
            }
            proof {
                self.lemma_links_only(&w3);
                assert(self.same_entities(&w3)) by {
                    assert forall|x: Entity| #[trigger] self.same_entity(&w3, x) by {}
                }
                assert(self.same_entity(&w3, np));
                assert(self.has(np, cc) == w3.has(np, cc));
                assert(self.has_children(np));
                assert(self.hierarchy_frame(&w3)) by {
                    assert forall|x: Entity| #[trigger] self.alive(x) == w3.alive(x) by {}
                    assert forall|x: Entity, d: usize| !self.is_marker(d) implies #[trigger] self.has(x, d) == w3.has(x, d) by {}
                    assert forall|x: Entity, d: usize| !self.is_marker(d) && w3.has(x, d) implies #[trigger] self.cell(x, d) == w3.cell(x, d) by {}
                }
                assert(w2.hierarchy_frame(&w1)) by {
                    assert forall|x: Entity| #[trigger] w2.alive(x) == w1.alive(x) by {}
                    assert forall|x: Entity, d: usize| !w2.is_marker(d) implies #[trigger] w2.has(x, d) == w1.has(x, d) by {}
                    assert forall|x: Entity, d: usize| !w2.is_marker(d) && w1.has(x, d) implies #[trigger] w2.cell(x, d) == w1.cell(x, d) by {}
                }
                w3.lemma_hierarchy_frame_trans(&w2, &w1);
                self.lemma_hierarchy_frame_trans(&w3, &w1);
                self.lemma_hierarchy_frame_trans(&w1, &w0);
                let pc = w1.component_id(PARENT_KEY)->Some_0;
                assert(self.has(child, pc)) by {
                    assert(w2.has(child, pc) == w1.has(child, pc));
                    assert(w1.has(child, pc));
                    if child.id != np.id {
                        assert(w3.same_entity(&w2, child));
                        assert(w3.has(child, pc) == w2.has(child, pc));
                    } else {
                        assert(w2.has(child, pc));
                        assert(w3.has(child, pc));
                    }
                    assert(self.same_entity(&w3, child));
                    assert(self.has(child, pc) == w3.has(child, pc));
                }
                assert(self.has_parent(child));
                if np.id == child.id {
                    assert(self.links@[child.id as int].parent == Some(np));
                }
                assert(self.children_of(np).contains(child));
                assert(self.children_of(np) == if before.contains(child) { before } else { before.push(child) });
            }
        } else {
            self.add_component(np, CHILDREN_KEY, zst, empty.as_slice());
            let ghost w3 = *self;
            proof {
                let cc = self.component_id(CHILDREN_KEY)->Some_0;
                self.lemma_frame_add(&w2, np, CHILDREN_KEY, cc);
            }
            self.ensure_links(np.id);
            let mut kids: Vec<Entity> = Vec::new();
            kids.push(child);
            self.links[np.id as usize].children = kids;
            proof {
                self.lemma_links_only(&w3);
                assert(self.links@[np.id as int].children@[0] == child);
                let cc = w3.component_id(CHILDREN_KEY)->Some_0;
                assert(w3.has(np, cc));
                assert(self.same_entity(&w3, np));
                assert(self.has(np, cc) == w3.has(np, cc));
                assert(self.component_id(CHILDREN_KEY) == w3.component_id(CHILDREN_KEY));
                assert(self.has_children(np));
                assert(self.same_entities(&w3)) by {
                    assert forall|x: Entity| #[trigger] self.same_entity(&w3, x) by {}
                }
                assert(self.hierarchy_frame(&w3)) by {
                    assert forall|x: Entity| #[trigger] self.alive(x) == w3.alive(x) by {}
                    assert forall|x: Entity, d: usize| !self.is_marker(d) implies #[trigger] self.has(x, d) == w3.has(x, d) by {}
                    assert forall|x: Entity, d: usize| !self.is_marker(d) && w3.has(x, d) implies #[trigger] self.cell(x, d) == w3.cell(x, d) by {}
                }
                assert(w2.hierarchy_frame(&w1)) by {
                    assert forall|x: Entity| #[trigger] w2.alive(x) == w1.alive(x) by {}
                    assert forall|x: Entity, d: usize| !w2.is_marker(d) implies #[trigger] w2.has(x, d) == w1.has(x, d) by {}
                    assert forall|x: Entity, d: usize| !w2.is_marker(d) && w1.has(x, d) implies #[trigger] w2.cell(x, d) == w1.cell(x, d) by {}
                }
                w3.lemma_hierarchy_frame_trans(&w2, &w1);
                self.lemma_hierarchy_frame_trans(&w3, &w1);
                self.lemma_hierarchy_frame_trans(&w1, &w0);
                let pc = w1.component_id(PARENT_KEY)->Some_0;
                assert(PARENT_KEY != CHILDREN_KEY);
                assert(w3.component_id(PARENT_KEY) == w2.component_id(PARENT_KEY));
                assert(self.component_id(PARENT_KEY) == w1.component_id(PARENT_KEY));
                assert(self.has(child, pc)) by {
                    assert(w2.has(child, pc) == w1.has(child, pc));
                    assert(w1.has(child, pc));
                    if child.id != np.id {
                        assert(w3.same_entity(&w2, child));
                        assert(w3.has(child, pc) == w2.has(child, pc));
                    } else {
                        assert(w2.has(child, pc));
                        assert(w3.has(child, pc));
                    }
                    assert(self.same_entity(&w3, child));
                    assert(self.has(child, pc) == w3.has(child, pc));
                }
                assert(self.has_parent(child));
                assert(self.children_of(np) =~= seq![child]);
            }
        }
    }

    /// `self` is `old` after live `child` was given the parent `parent_opt`:
    /// nothing but the markers changed; with a live parent `p`, `child` has
    /// `p` as parent and is listed among `p`'s children, once when the list
    /// held it at most once before; with `None` it has no parent; and a live
    /// former parent other than the new one no longer lists it.
    pub open spec fn parent_set(&self, old: &World, child: Entity, parent_opt: Option<Entity>) -> bool {
        &&& self.hierarchy_frame(old)
        &&& forall|p: Entity|
            parent_opt == Some(p) && old.alive(p) ==> {
                &&& self.has_parent(child)
                &&& self.parent_of(child) == Some(p)
                &&& self.has_children(p)
                &&& #[trigger] self.children_of(p).contains(child)
                &&& at_most_once(old.children_of(p), child) ==> at_most_once(self.children_of(p), child)
                &&& old.has_children(p) ==> self.children_of(p).filter(other_than(child)) == old.children_of(
                    p,
                ).filter(other_than(child))
                &&& old.has_children(p) && !old.children_of(p).contains(child) ==> self.children_of(p)
                    == old.children_of(p).push(child)
                &&& !old.has_children(p) ==> self.children_of(p) == seq![child]
            }
        &&& parent_opt is None ==> !self.has_parent(child)
        &&& forall|op: Entity|
            old.has_parent(child) && old.parent_of(child) == Some(op) && old.alive(op) && old.has_children(op)
                && parent_opt != Some(op) ==> !#[trigger] self.children_of(op).contains(child)
        &&& forall|op: Entity|
            old.has_parent(child) && old.parent_of(child) == Some(op) && old.alive(op) && old.has_children(op)
                && parent_opt != Some(op) && op.id != child.id ==> #[trigger] self.children_of(op)
                == old.children_of(op).filter(other_than(child))
        &&& forall|x: Entity|
            x.id != child.id && (parent_opt is Some ==> x.id != parent_opt->Some_0.id) && !(old.has_parent(child)
                && old.parent_of(child) is Some && x.id == old.parent_of(child)->Some_0.id) ==> #[trigger] self.children_of(x)
                == old.children_of(x)
    }

    /// Makes `parent_opt` the parent of live `child`: the child leaves the
    /// children list of its former parent (marked changed), gains the
    /// `Parent` marker and is listed among the new parent's children (the
    /// parent gaining `Children` when it had none, or the list marked changed
    /// when it had); with `None` the child loses `Parent`. A dead child
    /// changes nothing; a dead new parent stops after the child left its
    /// former parent.
    pub fn set_parent(&mut self, child: Entity, parent_opt: Option<Entity>)
        requires
            old(self).wf(),
            old(self).n_components() + 2 < u32::MAX,
            old(self).n_archetypes() + 2 < u32::MAX,
            old(self).layout_fits(PARENT_KEY, marker_layout()),
            old(self).layout_fits(CHILDREN_KEY, marker_layout()),
        ensures
            final(self).wf(),
            !old(self).alive(child) ==> *final(self) == *old(self),
            old(self).alive(child) ==> final(self).parent_set(old(self), child, parent_opt),
    {
        if !self.is_alive(child) {
            return;
        }
        let ghost w0 = *self;
        self.leave_parent(child);
        let ghost w1 = *self;
        proof {
            assert(self.layout_fits(PARENT_KEY, marker_layout()));
            assert(self.layout_fits(CHILDREN_KEY, marker_layout()));
            assert forall|op: Entity|
                w0.has_parent(child) && w0.parent_of(child) == Some(op) && w0.alive(op) && w0.has_children(op)
                    implies #[trigger] w1.children_of(op) == w0.children_of(op).filter(other_than(child)) by {
                assert(!w1.children_of(op).contains(child));
                assert(w1.children_of(op) == w0.children_of(op) || w1.children_of(op) == w0.children_of(op).filter(
                    other_than(child),
                ));
                if w1.children_of(op) == w0.children_of(op) {
                    lemma_filter_absent(w0.children_of(op), child);
                }
            }
            assert forall|x: Entity|
                !(w0.has_parent(child) && w0.parent_of(child) is Some && x.id == w0.parent_of(child)->Some_0.id)
                    implies #[trigger] w1.children_of(x) == w0.children_of(x) by {
                if (x.id as int) < w0.links@.len() {
                    assert(w1.links@[x.id as int] == w0.links@[x.id as int]);
                }
            }
        }
        match parent_opt {
            Some(np) => {
                if !self.is_alive(np) {
                    proof {
                        assert(!w0.alive(np));
                    }
                    return;
                }
                proof {
                    if at_most_once(w0.children_of(np), child) && w1.children_of(np) != w0.children_of(np) {
                        lemma_filtered_lacks(w0.children_of(np), child);
                    }
                }
                self.join_parent(child, np);
                proof {
                    assert forall|op: Entity|
                        w0.has_parent(child) && w0.parent_of(child) == Some(op) && w0.alive(op) && w0.has_children(op)
                            && parent_opt != Some(op) && op.id != child.id implies #[trigger] self.children_of(op)
                            == w0.children_of(op).filter(other_than(child)) by {
                        assert(w1.children_of(op) == w0.children_of(op).filter(other_than(child)));
                        if op.id == np.id {
                            assert(w0.alive(np));
                            assert(op == np);
                        }
                        assert(self.children_of(op) == w1.children_of(op));
                    }
                    assert forall|x: Entity|
                        x.id != child.id && (parent_opt is Some ==> x.id != parent_opt->Some_0.id) && !(w0.has_parent(
                            child,
                        ) && w0.parent_of(child) is Some && x.id == w0.parent_of(child)->Some_0.id)
                            implies #[trigger] self.children_of(x) == w0.children_of(x) by {
                        assert(w1.children_of(x) == w0.children_of(x));
                        assert(self.children_of(x) == w1.children_of(x));
                    }
                    self.lemma_hierarchy_frame_trans(&w1, &w0);
                    assert(w0.alive(np)) by {
                        assert(w1.alive(np) == w0.alive(np));
                    }
                    assert forall|op: Entity|
                        w0.has_parent(child) && w0.parent_of(child) == Some(op) && w0.alive(op)
                            && w0.has_children(op) && parent_opt != Some(op)
                            implies !#[trigger] self.children_of(op).contains(child) by {
                        assert(!w1.children_of(op).contains(child));
                        if op.id == np.id {
                            assert(op == np);
                        } else if op.id == child.id {
                            assert(op == child);
                            if np.id == child.id {
                                assert(np == child);
                            }
                        } else {
                            assert(self.children_of(op) == w1.children_of(op));
                        }
                    }
                    assert forall|p: Entity|
                        parent_opt == Some(p) && w0.alive(p) implies {
                            &&& self.has_parent(child)
                            &&& self.parent_of(child) == Some(p)
                            &&& self.has_children(p)
                            &&& #[trigger] self.children_of(p).contains(child)
                            &&& at_most_once(w0.children_of(p), child) ==> at_most_once(self.children_of(p), child)
                            &&& w0.has_children(p) ==> self.children_of(p).filter(other_than(child)) == w0.children_of(
                                p,
                            ).filter(other_than(child))
                            &&& w0.has_children(p) && !w0.children_of(p).contains(child) ==> self.children_of(p)
                                == w0.children_of(p).push(child)
                            &&& !w0.has_children(p) ==> self.children_of(p) == seq![child]
                        } by {
                            let l0 = w0.children_of(p);
                            let l1 = w1.children_of(p);
                            assert(l1 == l0 || l1 == l0.filter(other_than(child)));
                            assert(w1.has_children(p) == w0.has_children(p));
                            lemma_filter_push_same(l0, child);
                            lemma_filter_push_same(l1, child);
                            if !l0.contains(child) {
                                lemma_filter_absent(l0, child);
                            }
                        }
                }
            },
            None => {
                self.remove_component(child, PARENT_KEY);
                let ghost w2 = *self;
                if (child.id as usize) < self.links.len() {
                    self.links[child.id as usize].parent = None;
                }
                proof {
                    self.lemma_links_only(&w2);
                    assert(w2.hierarchy_frame(&w1)) by {
                        w2.lemma_frame_remove(&w1, child);
                    }
                    assert(self.hierarchy_frame(&w2)) by {
                        assert forall|x: Entity| #[trigger] self.alive(x) == w2.alive(x) by {}
                        assert forall|x: Entity, d: usize| !self.is_marker(d) implies #[trigger] self.has(x, d) == w2.has(x, d) by {}
                        assert forall|x: Entity, d: usize| !self.is_marker(d) && w2.has(x, d) implies #[trigger] self.cell(x, d) == w2.cell(x, d) by {}
                    }
                    self.lemma_hierarchy_frame_trans(&w2, &w1);
                    self.lemma_hierarchy_frame_trans(&w1, &w0);
                    if let Some(pc) = w1.component_id(PARENT_KEY) {
                        assert(!w2.has(child, pc));
                    }
                    assert forall|x: Entity| #[trigger] self.children_of(x) == w1.children_of(x) by {
                        if (x.id as int) < self.links@.len() {
                            assert(self.links@[x.id as int].children == w1.links@[x.id as int].children);
                        }
                    }
                    assert forall|op: Entity|
                        w0.has_parent(child) && w0.parent_of(child) == Some(op) && w0.alive(op) && w0.has_children(op)
                            && parent_opt != Some(op) && op.id != child.id implies #[trigger] self.children_of(op)
                            == w0.children_of(op).filter(other_than(child)) by {
                        assert(w1.children_of(op) == w0.children_of(op).filter(other_than(child)));
                        assert(self.children_of(op) == w1.children_of(op));
                    }
                    assert forall|x: Entity|
                        x.id != child.id && (parent_opt is Some ==> x.id != parent_opt->Some_0.id) && !(w0.has_parent(
                            child,
                        ) && w0.parent_of(child) is Some && x.id == w0.parent_of(child)->Some_0.id)
                            implies #[trigger] self.children_of(x) == w0.children_of(x) by {
                        assert(w1.children_of(x) == w0.children_of(x));
                        assert(self.children_of(x) == w1.children_of(x));
                    }
                    assert forall|op: Entity|
                        w0.has_parent(child) && w0.parent_of(child) == Some(op) && w0.alive(op)
                            && w0.has_children(op) && parent_opt != Some(op)
                            implies !#[trigger] self.children_of(op).contains(child) by {
                        assert(!w1.children_of(op).contains(child));
                        if (op.id as int) < self.links@.len() {
                            assert(self.links@[op.id as int].children == w1.links@[op.id as int].children);
                        }
                    }
                    assert(!self.has_parent(child)) by {
                        if let Some(pc) = self.component_id(PARENT_KEY) {
                            assert(self.same_entity(&w2, child));
                            assert(self.has(child, pc) == w2.has(child, pc));
                        }
                    }
                }
            },
        }
    }
}

} // verus!
