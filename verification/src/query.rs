use vstd::prelude::*;

use crate::archetype::{Archetype, Column, ItemLayout, NO_COLUMN};
use crate::entity::{Entity, NO_ARCHETYPE};
use crate::system::Access;
use crate::world::{lemma_sorted_len, World};

use std::collections::HashSet;

verus! {

broadcast use vstd::std_specs::hash::group_hash_axioms;

/// Matches entities that have component type `.0`.
#[derive(Clone, Copy)]
pub struct With(pub u64);

/// Matches entities that lack component type `.0`.
#[derive(Clone, Copy)]
pub struct Without(pub u64);

/// Matches entities whose component `.0` was added in the current tick.
#[derive(Clone, Copy)]
pub struct Added(pub u64);

/// Matches entities whose component `.0` changed since the query last ran.
#[derive(Clone, Copy)]
pub struct Changed(pub u64);

/// One term of a query's filter.
#[derive(Clone, Copy)]
pub enum FilterTerm {
    With(With),
    Without(Without),
    Added(Added),
    Changed(Changed),
}

/// The component type that a filter term speaks of.
pub open spec fn term_key(t: FilterTerm) -> u64 {
    match t {
        FilterTerm::With(With(k)) => k,
        FilterTerm::Without(Without(k)) => k,
        FilterTerm::Added(Added(k)) => k,
        FilterTerm::Changed(Changed(k)) => k,
    }
}

/// The terms of `f` that require a component, in order.
pub open spec fn kept_terms(f: Seq<FilterTerm>) -> Seq<FilterTerm>
    decreases f.len(),
{
    if f.len() == 0 {
        Seq::empty()
    } else if f.last() is Without {
        kept_terms(f.drop_last())
    } else {
        kept_terms(f.drop_last()).push(f.last())
    }
}

/// The component types that the terms of `f` exclude, in order.
pub open spec fn excluded_keys(f: Seq<FilterTerm>) -> Seq<u64>
    decreases f.len(),
{
    if f.len() == 0 {
        Seq::empty()
    } else if f.last() is Without {
        excluded_keys(f.drop_last()).push(term_key(f.last()))
    } else {
        excluded_keys(f.drop_last())
    }
}

/// Whether a filter term excludes a component type.
pub open spec fn is_without_term() -> spec_fn(FilterTerm) -> bool {
    |t: FilterTerm| t is Without
}

/// The component type of a filter term, as a function.
pub open spec fn key_of_term() -> spec_fn(FilterTerm) -> u64 {
    |t: FilterTerm| term_key(t)
}

/// The excluded keys of `f` are the keys of its `Without` terms, all of
/// them, in order.
pub proof fn law_excluded_keys_are_without_keys(f: Seq<FilterTerm>)
    ensures
        excluded_keys(f) == f.filter(is_without_term()).map_values(key_of_term()),
        forall|i: int| 0 <= i < f.len() && f[i] is Without ==> excluded_keys(f).contains(#[trigger] term_key(f[i])),
    decreases f.len(),
{
    if f.len() > 0 {
        let init = f.drop_last();
        law_excluded_keys_are_without_keys(init);
        let fi = init.filter(is_without_term());
        reveal(Seq::filter);
        assert(f.drop_last() == init);
        assert(f.filter(is_without_term()) == if f.last() is Without { fi.push(f.last()) } else { fi });
        if f.last() is Without {
            assert(fi.push(f.last()).map_values(key_of_term()) =~= fi.map_values(key_of_term()).push(term_key(f.last())));
        }
        let e = excluded_keys(f);
        let ei = excluded_keys(init);
        assert forall|i: int| 0 <= i < f.len() && f[i] is Without implies e.contains(#[trigger] term_key(f[i])) by {
            if i < f.len() - 1 {
                assert(f[i] == init[i]);
                assert(ei.contains(term_key(init[i])));
                let k = ei.index_of(term_key(init[i]));
                assert(e[k] == ei[k]);
            } else {
                assert(e[e.len() - 1] == term_key(f[i]));
            }
        }
    }
}

/// Whether a filter term requires a component type.
pub open spec fn is_kept_term() -> spec_fn(FilterTerm) -> bool {
    |t: FilterTerm| !(t is Without)
}

/// The kept terms of `f` are all its terms but the `Without` ones, in
/// order.
pub proof fn law_kept_terms_are_the_others(f: Seq<FilterTerm>)
    ensures
        kept_terms(f) == f.filter(is_kept_term()),
    decreases f.len(),
{
    if f.len() > 0 {
        law_kept_terms_are_the_others(f.drop_last());
        reveal(Seq::filter);
    }
}

/// Where a matched archetype's cached columns start.
#[derive(Clone, Copy)]
pub struct MatchedArchetype {
    pub arch_index: u32,
    pub query_cols_start: usize,
    pub filter_cols_start: usize,
}

/// The archetype holds every component of `req` and none of `exc`.
pub open spec fn arch_matches(a: Archetype, req: Seq<usize>, exc: Seq<usize>) -> bool {
    &&& forall|i: int| 0 <= i < req.len() ==> a.has_component(#[trigger] req[i])
    &&& forall|i: int| 0 <= i < exc.len() ==> !a.has_component(#[trigger] exc[i])
}

/// What a query fetches and filters by, and the archetypes it has found
/// to match, with the column of each fetched and filtered component there.
pub struct QueryState {
    pub required_components: Vec<u64>,
    pub exclude_components: Vec<u64>,
    pub query_comp_keys: Vec<u64>,
    pub query_writes: Vec<bool>,
    pub filters: Vec<FilterTerm>,
    pub req_ids: Vec<usize>,
    pub exc_ids: Vec<usize>,
    pub query_ids: Vec<usize>,
    pub filter_ids: Vec<usize>,
    pub matched_archetypes: Vec<MatchedArchetype>,
    pub archetype_mapping: Vec<u32>,
    pub query_columns: Vec<u32>,
    pub filter_columns: Vec<u32>,
    pub last_archetype_count: usize,
    pub last_run_tick: u32,
    pub last_structural_gen: u64,
    pub initialized: bool,
}

/// Archetype `a` holds live `e` with the component `c` in column `col`.
pub open spec fn column_of(w: &World, a: int, c: usize) -> int {
    w.archetypes@[a].col_of(c)
}

impl QueryState {
    /// The keys of the query are among the required ones, and so are the
    /// keys of the kept filter terms.
    pub open spec fn shape_wf(&self) -> bool {
        let nq = self.query_comp_keys@.len();
        &&& self.query_writes@.len() == nq
        &&& self.required_components@ == self.query_comp_keys@ + self.filters@.map_values(
            |t: FilterTerm| term_key(t),
        )
        &&& forall|i: int| 0 <= i < self.filters@.len() ==> !(#[trigger] self.filters@[i] is Without)
    }

    /// The ids resolved at the first update stand for the keys in `w`.
    pub open spec fn ids_wf(&self, w: &World) -> bool {
        &&& self.req_ids@.len() == self.required_components@.len()
        &&& forall|i: int|
            0 <= i < self.req_ids@.len() ==> w.component_id(self.required_components@[i]) == Some(
                #[trigger] self.req_ids@[i],
            )
        &&& self.query_ids@.len() == self.query_comp_keys@.len()
        &&& forall|i: int|
            0 <= i < self.query_ids@.len() ==> w.component_id(self.query_comp_keys@[i]) == Some(
                #[trigger] self.query_ids@[i],
            )
        &&& self.filter_ids@.len() == self.filters@.len()
        &&& forall|i: int|
            0 <= i < self.filter_ids@.len() ==> w.component_id(term_key(self.filters@[i])) == Some(
                #[trigger] self.filter_ids@[i],
            )
        &&& forall|i: int| 0 <= i < self.exc_ids@.len() ==> #[trigger] self.exc_ids@[i] < w.n_components()
        &&& forall|c: usize| #[trigger] self.exc_ids@.contains(c) <==> self.excluded_in(w, c)
    }

    /// `c` is the id in `w` of one of the excluded keys.
    pub open spec fn excluded_in(&self, w: &World, c: usize) -> bool {
        exists|j: int| 0 <= j < self.exclude_components@.len() && w.component_id(#[trigger] self.exclude_components@[j]) == Some(c)
    }

    /// Archetype `a` of `w` matches the query.
    pub open spec fn matches(&self, w: &World, a: int) -> bool {
        arch_matches(w.archetypes@[a], self.req_ids@, self.exc_ids@)
    }

    /// The cache agrees with `w`: the archetypes below the scanned count that
    /// match are listed, in order, with the columns of the fetched and
    /// filtered components.
    pub open spec fn cache_wf(&self, w: &World) -> bool {
        let nq = self.query_ids@.len();
        let nf = self.filter_ids@.len();
        &&& self.shape_wf()
        &&& !self.initialized ==> {
            &&& self.matched_archetypes@.len() == 0
            &&& self.last_archetype_count == 0
            &&& self.archetype_mapping@.len() == 0
        }
        &&& self.initialized ==> {
            &&& self.ids_wf(w)
            &&& self.last_archetype_count <= w.n_archetypes()
            &&& self.archetype_mapping@.len() >= self.last_archetype_count
            &&& forall|m: int, n: int|
                0 <= m < n < self.matched_archetypes@.len() ==> self.matched_archetypes@[m].arch_index
                    < self.matched_archetypes@[n].arch_index
            &&& forall|m: int|
                0 <= m < self.matched_archetypes@.len() ==> {
                    let ma = #[trigger] self.matched_archetypes@[m];
                    let a = ma.arch_index as int;
                    &&& a < self.last_archetype_count
                    &&& self.archetype_mapping@[a] == m
                    &&& ma.query_cols_start + nq <= self.query_columns@.len()
                    &&& ma.filter_cols_start + nf <= self.filter_columns@.len()
                    &&& forall|k: int|
                        0 <= k < nq ==> self.query_columns@[ma.query_cols_start + k] == column_of(
                            w,
                            a,
                            #[trigger] self.query_ids@[k],
                        )
                    &&& forall|k: int|
                        0 <= k < nf ==> self.filter_columns@[ma.filter_cols_start + k] == column_of(
                            w,
                            a,
                            #[trigger] self.filter_ids@[k],
                        )
                }
            &&& forall|a: int|
                0 <= a < self.last_archetype_count ==> {
                    &&& (#[trigger] self.archetype_mapping@[a] != NO_ARCHETYPE) == self.matches(w, a)
                    &&& self.archetype_mapping@[a] != NO_ARCHETYPE ==> {
                        &&& self.archetype_mapping@[a] < self.matched_archetypes@.len()
                        &&& self.matched_archetypes@[self.archetype_mapping@[a] as int].arch_index == a
                    }
                }
            &&& forall|a: int|
                self.last_archetype_count <= a < self.archetype_mapping@.len()
                    ==> #[trigger] self.archetype_mapping@[a] == NO_ARCHETYPE
            &&& self.matched_archetypes@.len() <= self.last_archetype_count
        }
    }
}

impl QueryState {
    /// All required component types are registered in `w`.
    pub open spec fn resolvable(&self, w: &World) -> bool {
        forall|i: int|
            0 <= i < self.required_components@.len() ==> w.component_id(
                #[trigger] self.required_components@[i],
            ) is Some
    }

    /// The fields that say what the query is about.
    pub open spec fn same_shape(&self, other: &QueryState) -> bool {
        &&& self.required_components@ == other.required_components@
        &&& self.exclude_components@ == other.exclude_components@
        &&& self.query_comp_keys@ == other.query_comp_keys@
        &&& self.query_writes@ == other.query_writes@
        &&& self.filters@ == other.filters@
    }

    /// A query fetching the components `fetch` (each with whether it is
    /// written) among the entities that pass `filter`; nothing matched yet.
    pub fn new(fetch: &Vec<(u64, bool)>, filter: &Vec<FilterTerm>) -> (q: QueryState)
        ensures
            q.query_comp_keys@ == fetch@.map_values(|p: (u64, bool)| p.0),
            q.query_writes@ == fetch@.map_values(|p: (u64, bool)| p.1),
            q.filters@ == kept_terms(filter@),
            q.exclude_components@ == excluded_keys(filter@),
            q.exclude_components@ == filter@.filter(is_without_term()).map_values(key_of_term()),
            q.filters@ == filter@.filter(is_kept_term()),
            q.required_components@ == q.query_comp_keys@ + filter@.filter(is_kept_term()).map_values(key_of_term()),
            forall|i: int|
                0 <= i < filter@.len() && filter@[i] is Without ==> q.exclude_components@.contains(
                    #[trigger] term_key(filter@[i]),
                ),
            q.shape_wf(),
            !q.initialized,
            q.matched_archetypes@.len() == 0,
            q.archetype_mapping@.len() == 0,
            q.last_archetype_count == 0,
            q.last_run_tick == 0,
    {
        let mut keys: Vec<u64> = Vec::new();
        let mut writes: Vec<bool> = Vec::new();
        let mut i: usize = 0;
        while i < fetch.len()
            invariant
                0 <= i <= fetch@.len(),
                keys@ == fetch@.take(i as int).map_values(|p: (u64, bool)| p.0),
                writes@ == fetch@.take(i as int).map_values(|p: (u64, bool)| p.1),
            decreases fetch@.len() - i,
        {
            keys.push(fetch[i].0);
            writes.push(fetch[i].1);
            proof {
                assert(fetch@.take(i + 1) =~= fetch@.take(i as int).push(fetch@[i as int]));
                assert(keys@ =~= fetch@.take(i + 1).map_values(|p: (u64, bool)| p.0));
                assert(writes@ =~= fetch@.take(i + 1).map_values(|p: (u64, bool)| p.1));
            }
            i = i + 1;
        }
        proof {
            assert(fetch@.take(fetch@.len() as int) =~= fetch@);
        }
        let mut kept: Vec<FilterTerm> = Vec::new();
        let mut excluded: Vec<u64> = Vec::new();
        let mut required: Vec<u64> = keys.clone();
        let mut j: usize = 0;
        while j < filter.len()
            invariant
                0 <= j <= filter@.len(),
                kept@ == kept_terms(filter@.take(j as int)),
                excluded@ == excluded_keys(filter@.take(j as int)),
                required@ == keys@ + kept@.map_values(|t: FilterTerm| term_key(t)),
                forall|k: int| 0 <= k < kept@.len() ==> !(#[trigger] kept@[k] is Without),
            decreases filter@.len() - j,
        {
            let t = filter[j];
            proof {
                assert(filter@.take(j + 1).drop_last() =~= filter@.take(j as int));
                assert(filter@.take(j + 1).last() == t);
            }
            match t {
                FilterTerm::Without(Without(k)) => {
                    excluded.push(k);
                },
                FilterTerm::With(With(k)) => {
                    kept.push(t);
                    required.push(k);
                },
                FilterTerm::Added(Added(k)) => {
                    kept.push(t);
                    required.push(k);
                },
                FilterTerm::Changed(Changed(k)) => {
                    kept.push(t);
                    required.push(k);
                },
            }
            proof {
                assert(required@ =~= keys@ + kept@.map_values(|t: FilterTerm| term_key(t)));
            }
            j = j + 1;
        }
        proof {
            assert(filter@.take(filter@.len() as int) =~= filter@);
            law_excluded_keys_are_without_keys(filter@);
            law_kept_terms_are_the_others(filter@);
            assert(kept@.map_values(|t: FilterTerm| term_key(t)) =~= kept@.map_values(key_of_term()));
        }
        QueryState {
            required_components: required,
            exclude_components: excluded,
            query_comp_keys: keys,
            query_writes: writes,
            filters: kept,
            req_ids: Vec::new(),
            exc_ids: Vec::new(),
            query_ids: Vec::new(),
            filter_ids: Vec::new(),
            matched_archetypes: Vec::new(),
            archetype_mapping: Vec::new(),
            query_columns: Vec::new(),
            filter_columns: Vec::new(),
            last_archetype_count: 0,
            last_run_tick: 0,
            last_structural_gen: 0,
            initialized: false,
        }
    }
}

impl QueryState {
    /// Resolves the keys of the query to the ids registered in `world`;
    /// false, with the state not initialized, when a required type is not
    /// registered.
    #[verifier::loop_isolation(false)]
    fn resolve_ids(&mut self, world: &World) -> (ok: bool)
        requires
            world.wf(),
            old(self).shape_wf(),
            !old(self).initialized,
            old(self).matched_archetypes@.len() == 0,
            old(self).last_archetype_count == 0,
        ensures
            ok == old(self).resolvable(world),
            final(self).same_shape(old(self)),
            final(self).last_run_tick == old(self).last_run_tick,
            final(self).last_structural_gen == old(self).last_structural_gen,
            final(self).archetype_mapping == old(self).archetype_mapping,
            !final(self).initialized,
            final(self).matched_archetypes@.len() == 0,
            final(self).last_archetype_count == 0,
            ok ==> final(self).ids_wf(world),
    {
        self.req_ids.clear();
        let mut i: usize = 0;
        while i < self.required_components.len()
            invariant
                world.wf(),
                0 <= i <= self.required_components@.len(),
                self.req_ids@.len() == i,
                forall|j: int|
                    0 <= j < i ==> world.component_id(self.required_components@[j]) == Some(
                        #[trigger] self.req_ids@[j],
                    ),
                self.same_shape(old(self)),
                self.last_run_tick == old(self).last_run_tick,
                self.last_structural_gen == old(self).last_structural_gen,
                self.archetype_mapping == old(self).archetype_mapping,
                self.initialized == old(self).initialized,
                self.matched_archetypes == old(self).matched_archetypes,
                self.last_archetype_count == old(self).last_archetype_count,
                self.exc_ids == old(self).exc_ids,
                self.query_ids == old(self).query_ids,
                self.filter_ids == old(self).filter_ids,
            decreases self.required_components@.len() - i,
        {
            match world.get_component_id_by_type_id(self.required_components[i]) {
                Some(id) => {
                    self.req_ids.push(id);
                },
                None => {
                    proof {
                        assert(!old(self).resolvable(world)) by {
                            assert(old(self).required_components@[i as int] == self.required_components@[i as int]);
                        }
                    }
                    return false;
                },
            }
            i = i + 1;
        }
        self.exc_ids.clear();
        let mut k: usize = 0;
        while k < self.exclude_components.len()
            invariant
                world.wf(),
                0 <= k <= self.exclude_components@.len(),
                forall|j: int| 0 <= j < self.exc_ids@.len() ==> #[trigger] self.exc_ids@[j] < world.n_components(),
                forall|c: usize|
                    #[trigger] self.exc_ids@.contains(c) <==> exists|j: int|
                        0 <= j < k && world.component_id(#[trigger] self.exclude_components@[j]) == Some(c),
                self.req_ids@.len() == self.required_components@.len(),
                forall|j: int|
                    0 <= j < self.req_ids@.len() ==> world.component_id(self.required_components@[j]) == Some(
                        #[trigger] self.req_ids@[j],
                    ),
                self.same_shape(old(self)),
                self.last_run_tick == old(self).last_run_tick,
                self.last_structural_gen == old(self).last_structural_gen,
                self.archetype_mapping == old(self).archetype_mapping,
                self.initialized == old(self).initialized,
                self.matched_archetypes == old(self).matched_archetypes,
                self.last_archetype_count == old(self).last_archetype_count,
            decreases self.exclude_components@.len() - k,
        {
            let ghost prev = self.exc_ids@;
            match world.get_component_id_by_type_id(self.exclude_components[k]) {
                Some(id) => {
                    self.exc_ids.push(id);
                },
                None => {},
            }
            proof {
                assert forall|c: usize|
                    #[trigger] self.exc_ids@.contains(c) <==> exists|j: int|
                        0 <= j < k + 1 && world.component_id(#[trigger] self.exclude_components@[j]) == Some(c) by {
                    if self.exc_ids@.contains(c) {
                        if prev.contains(c) {
                            let j = choose|j: int| 0 <= j < k && world.component_id(#[trigger] self.exclude_components@[j]) == Some(c);
                        } else {
                            assert(self.exc_ids@.last() == c);
                            assert(world.component_id(self.exclude_components@[k as int]) == Some(c));
                        }
                    }
                    if exists|j: int| 0 <= j < k + 1 && world.component_id(#[trigger] self.exclude_components@[j]) == Some(c) {
                        let j = choose|j: int| 0 <= j < k + 1 && world.component_id(#[trigger] self.exclude_components@[j]) == Some(c);
                        if j < k {
                            assert(prev.contains(c));
                            let i = prev.index_of(c);
                            assert(self.exc_ids@[i] == c);
                        } else {
                            assert(self.exc_ids@[self.exc_ids@.len() - 1] == c);
                        }
                    }
                }
            }
            k = k + 1;
        }
        let nq = self.query_comp_keys.len();
        self.query_ids.clear();
        let mut q: usize = 0;
        while q < nq
            invariant
                world.wf(),
                nq == self.query_comp_keys@.len(),
                0 <= q <= nq,
                self.query_ids@.len() == q,
                forall|j: int|
                    0 <= j < q ==> world.component_id(self.query_comp_keys@[j]) == Some(
                        #[trigger] self.query_ids@[j],
                    ),
                forall|j: int| 0 <= j < self.exc_ids@.len() ==> #[trigger] self.exc_ids@[j] < world.n_components(),
                forall|c: usize| #[trigger] self.exc_ids@.contains(c) <==> self.excluded_in(world, c),
                self.req_ids@.len() == self.required_components@.len(),
                forall|j: int|
                    0 <= j < self.req_ids@.len() ==> world.component_id(self.required_components@[j]) == Some(
                        #[trigger] self.req_ids@[j],
                    ),
                self.shape_wf(),
                self.same_shape(old(self)),
                self.last_run_tick == old(self).last_run_tick,
                self.last_structural_gen == old(self).last_structural_gen,
                self.archetype_mapping == old(self).archetype_mapping,
                self.initialized == old(self).initialized,
                self.matched_archetypes == old(self).matched_archetypes,
                self.last_archetype_count == old(self).last_archetype_count,
            decreases nq - q,
        {
            proof {
                assert(self.required_components@[q as int] == self.query_comp_keys@[q as int]);
                assert(world.component_id(self.required_components@[q as int]) == Some(self.req_ids@[q as int]));
            }
            let id = world.get_component_id_by_type_id(self.query_comp_keys[q]).unwrap();
            self.query_ids.push(id);
            q = q + 1;
        }
        let nf = self.filters.len();
        self.filter_ids.clear();
        let mut f: usize = 0;
        while f < nf
            invariant
                world.wf(),
                nq == self.query_comp_keys@.len(),
                nf == self.filters@.len(),
                0 <= f <= nf,
                self.filter_ids@.len() == f,
                forall|j: int|
                    0 <= j < f ==> world.component_id(term_key(self.filters@[j])) == Some(
                        #[trigger] self.filter_ids@[j],
                    ),
                self.query_ids@.len() == nq,
                forall|j: int|
                    0 <= j < nq ==> world.component_id(self.query_comp_keys@[j]) == Some(
                        #[trigger] self.query_ids@[j],
                    ),
                forall|j: int| 0 <= j < self.exc_ids@.len() ==> #[trigger] self.exc_ids@[j] < world.n_components(),
                forall|c: usize| #[trigger] self.exc_ids@.contains(c) <==> self.excluded_in(world, c),
                self.req_ids@.len() == self.required_components@.len(),
                forall|j: int|
                    0 <= j < self.req_ids@.len() ==> world.component_id(self.required_components@[j]) == Some(
                        #[trigger] self.req_ids@[j],
                    ),
                self.shape_wf(),
                self.same_shape(old(self)),
                self.last_run_tick == old(self).last_run_tick,
                self.last_structural_gen == old(self).last_structural_gen,
                self.archetype_mapping == old(self).archetype_mapping,
                self.initialized == old(self).initialized,
                self.matched_archetypes == old(self).matched_archetypes,
                self.last_archetype_count == old(self).last_archetype_count,
            decreases nf - f,
        {
            let t = self.filters[f];
            let key = match t {
                FilterTerm::With(With(k)) => k,
                FilterTerm::Without(Without(k)) => k,
                FilterTerm::Added(Added(k)) => k,
                FilterTerm::Changed(Changed(k)) => k,
            };
            proof {
                assert(key == term_key(self.filters@[f as int]));
                assert(self.required_components@[nq + f] == key);
                assert(world.component_id(self.required_components@[nq + f]) == Some(self.req_ids@[nq + f]));
            }
            let id = world.get_component_id_by_type_id(key).unwrap();
            self.filter_ids.push(id);
            f = f + 1;
        }
        proof {
            assert forall|j: int| 0 <= j < old(self).required_components@.len() implies world.component_id(
                #[trigger] old(self).required_components@[j],
            ) is Some by {
                assert(world.component_id(self.required_components@[j]) == Some(self.req_ids@[j]));
            }
        }
        true
    }
}

impl QueryState {
    /// Scans archetype `a`, the first one not yet scanned: lists it with its
    /// columns when it matches.
    #[verifier::loop_isolation(false)]
    fn scan_archetype(&mut self, world: &World, a: usize)
        requires
            world.wf(),
            old(self).cache_wf(world),
            old(self).initialized,
            old(self).last_archetype_count == a,
            a < world.n_archetypes(),
            old(self).archetype_mapping@.len() >= world.n_archetypes(),
        ensures
            final(self).cache_wf(world),
            final(self).initialized,
            final(self).last_archetype_count == a + 1,
            final(self).archetype_mapping@.len() == old(self).archetype_mapping@.len(),
            final(self).same_shape(old(self)),
            final(self).req_ids == old(self).req_ids,
            final(self).exc_ids == old(self).exc_ids,
            final(self).query_ids == old(self).query_ids,
            final(self).filter_ids == old(self).filter_ids,
            final(self).last_run_tick == old(self).last_run_tick,
            final(self).last_structural_gen == old(self).last_structural_gen,
    {
        let is_match = archetype_matches(world, a, &self.req_ids, &self.exc_ids);
        if is_match {
            let arch = &world.archetypes[a];
            proof {
                assert(arch.wf(a as int, world.component_layouts@));
            }
            let nq = self.query_ids.len();
            let q_start = self.query_columns.len();
            let mut k: usize = 0;
            while k < nq
                invariant
                    nq == self.query_ids@.len(),
                    0 <= k <= nq,
                    self.query_columns@.len() == q_start + k,
                    forall|j: int| 0 <= j < q_start ==> self.query_columns@[j] == old(self).query_columns@[j],
                    forall|j: int| 0 <= j < k ==> self.query_columns@[q_start + j] == column_of(world, a as int, #[trigger] self.query_ids@[j]),
                    *self == (QueryState { query_columns: self.query_columns, ..*old(self) }),
                decreases nq - k,
            {
                let cid = self.query_ids[k];
                proof {
                    assert(world.component_id(self.query_comp_keys@[k as int]) == Some(cid));
                    let i = choose|i: int| 0 <= i < world.component_ids@.len() && #[trigger] world.component_ids@[i].0 == self.query_comp_keys@[k as int];
                    assert(world.component_ids@[i].1 < world.n_components());
                }
                self.query_columns.push(arch.component_to_column[cid]);
                k = k + 1;
            }
            let nf = self.filter_ids.len();
            let f_start = self.filter_columns.len();
            let mut f: usize = 0;
            while f < nf
                invariant
                    nf == self.filter_ids@.len(),
                    0 <= f <= nf,
                    self.filter_columns@.len() == f_start + f,
                    forall|j: int| 0 <= j < f_start ==> self.filter_columns@[j] == old(self).filter_columns@[j],
                    forall|j: int| 0 <= j < f ==> self.filter_columns@[f_start + j] == column_of(world, a as int, #[trigger] self.filter_ids@[j]),
                    *self == (QueryState {
                        query_columns: self.query_columns,
                        filter_columns: self.filter_columns,
                        ..*old(self)
                    }),
                    self.query_columns@.len() == q_start + nq,
                    forall|j: int| 0 <= j < q_start ==> self.query_columns@[j] == old(self).query_columns@[j],
                    forall|j: int| 0 <= j < nq ==> self.query_columns@[q_start + j] == column_of(world, a as int, #[trigger] self.query_ids@[j]),
                decreases nf - f,
            {
                let cid = self.filter_ids[f];
                proof {
                    assert(world.component_id(term_key(self.filters@[f as int])) == Some(cid));
                    let i = choose|i: int| 0 <= i < world.component_ids@.len() && #[trigger] world.component_ids@[i].0 == term_key(self.filters@[f as int]);
                    assert(world.component_ids@[i].1 < world.n_components());
                }
                self.filter_columns.push(arch.component_to_column[cid]);
                f = f + 1;
            }
            let m_idx = self.matched_archetypes.len();
            proof {
                assert(m_idx <= a);
                assert(world.n_archetypes() < u32::MAX);
            }
            self.matched_archetypes.push(MatchedArchetype {
                arch_index: arch.id,
                query_cols_start: q_start,
                filter_cols_start: f_start,
            });
            self.archetype_mapping.set(a, m_idx as u32);
            proof {
                assert(self.archetype_mapping@[a as int] == m_idx);
                assert(self.archetype_mapping@[a as int] != NO_ARCHETYPE);
            }
        }
        self.last_archetype_count = a + 1;
        proof {
            let nq = self.query_ids@.len();
            let nf = self.filter_ids@.len();
            assert forall|m: int| 0 <= m < self.matched_archetypes@.len() implies {
                let ma = #[trigger] self.matched_archetypes@[m];
                let b = ma.arch_index as int;
                &&& b < self.last_archetype_count
                &&& self.archetype_mapping@[b] == m
                &&& ma.query_cols_start + nq <= self.query_columns@.len()
                &&& ma.filter_cols_start + nf <= self.filter_columns@.len()
                &&& forall|k: int|
                    0 <= k < nq ==> self.query_columns@[ma.query_cols_start + k] == column_of(
                        world,
                        b,
                        #[trigger] self.query_ids@[k],
                    )
                &&& forall|k: int|
                    0 <= k < nf ==> self.filter_columns@[ma.filter_cols_start + k] == column_of(
                        world,
                        b,
                        #[trigger] self.filter_ids@[k],
                    )
            } by {
                if m < old(self).matched_archetypes@.len() {
                    let ma = old(self).matched_archetypes@[m];
                    assert(self.matched_archetypes@[m] == ma);
                    assert forall|k: int| 0 <= k < nq implies self.query_columns@[ma.query_cols_start + k] == column_of(
                        world,
                        ma.arch_index as int,
                        #[trigger] self.query_ids@[k],
                    ) by {
                        assert(old(self).query_columns@[ma.query_cols_start + k] == column_of(world, ma.arch_index as int, old(self).query_ids@[k]));
                    }
                    assert forall|k: int| 0 <= k < nf implies self.filter_columns@[ma.filter_cols_start + k] == column_of(
                        world,
                        ma.arch_index as int,
                        #[trigger] self.filter_ids@[k],
                    ) by {
                        assert(old(self).filter_columns@[ma.filter_cols_start + k] == column_of(world, ma.arch_index as int, old(self).filter_ids@[k]));
                    }
                }
            }
            assert forall|b: int| 0 <= b < self.last_archetype_count implies {
                &&& (#[trigger] self.archetype_mapping@[b] != NO_ARCHETYPE) == self.matches(world, b)
                &&& self.archetype_mapping@[b] != NO_ARCHETYPE ==> {
                    &&& self.archetype_mapping@[b] < self.matched_archetypes@.len()
                    &&& self.matched_archetypes@[self.archetype_mapping@[b] as int].arch_index == b
                }
            } by {
                if b < a {
                    assert(self.archetype_mapping@[b] == old(self).archetype_mapping@[b]);
                } else if !is_match {
                    assert(old(self).archetype_mapping@[b] == NO_ARCHETYPE);
                    assert(self.archetype_mapping@[b] == old(self).archetype_mapping@[b]);
                }
            }
        }
    }
}

impl QueryState {
    /// Brings the cache up to date with `world`. Nothing happens when it was
    /// brought up to date at the same structural generation. At the first
    /// update the keys are resolved to ids, and nothing more happens when a
    /// required type is not registered; after that the archetypes not yet
    /// scanned are scanned.
    pub fn update_cache(&mut self, world: &World)
        requires
            world.wf(),
            old(self).cache_wf(world),
        ensures
            final(self).cache_wf(world),
            final(self).same_shape(old(self)),
            final(self).last_run_tick == old(self).last_run_tick,
            old(self).initialized && old(self).last_structural_gen == world.structural_gen
                ==> *final(self) == *old(self),
            !(old(self).initialized && old(self).last_structural_gen == world.structural_gen) ==> {
                &&& final(self).initialized == (old(self).initialized || old(self).resolvable(world))
                &&& final(self).initialized ==> {
                    &&& final(self).last_archetype_count == world.n_archetypes()
                    &&& final(self).last_structural_gen == world.structural_gen
                }
            },
            old(self).initialized ==> {
                &&& final(self).req_ids == old(self).req_ids
                &&& final(self).exc_ids == old(self).exc_ids
                &&& final(self).query_ids == old(self).query_ids
                &&& final(self).filter_ids == old(self).filter_ids
            },
    {
        if self.initialized && self.last_structural_gen == world.structural_gen {
            return;
        }
        if !self.initialized {
            if !self.resolve_ids(world) {
                return;
            }
            self.initialized = true;
            self.last_archetype_count = 0;
            self.query_columns.clear();
            self.filter_columns.clear();
            self.matched_archetypes.clear();
        }
        let ghost s1 = *self;
        let n = world.archetypes.len();
        while self.archetype_mapping.len() < n
            invariant
                world.wf(),
                self.cache_wf(world),
                self.initialized,
                n == world.n_archetypes(),
                *self == (QueryState { archetype_mapping: self.archetype_mapping, ..s1 }),
            decreases n - self.archetype_mapping@.len(),
        {
            self.archetype_mapping.push(NO_ARCHETYPE);
        }
        let mut a = self.last_archetype_count;
        while a < n
            invariant
                world.wf(),
                self.cache_wf(world),
                self.initialized,
                n == world.n_archetypes(),
                self.last_archetype_count == a,
                a <= n,
                self.archetype_mapping@.len() >= n,
                self.same_shape(&s1),
                self.req_ids == s1.req_ids,
                self.exc_ids == s1.exc_ids,
                self.query_ids == s1.query_ids,
                self.filter_ids == s1.filter_ids,
                self.last_run_tick == s1.last_run_tick,
            decreases n - a,
        {
            self.scan_archetype(world, a);
            a = a + 1;
        }
        self.last_structural_gen = world.structural_gen;
    }
}

/// Whether archetype `a` of `w` holds every component of `req` and none of
/// `exc`.
fn archetype_matches(w: &World, a: usize, req: &Vec<usize>, exc: &Vec<usize>) -> (b: bool)
    requires
        w.wf(),
        a < w.n_archetypes(),
    ensures
        b == arch_matches(w.archetypes@[a as int], req@, exc@),
{
    let arch = &w.archetypes[a];
    proof {
        assert(arch.wf(a as int, w.component_layouts@));
    }
    let mut i: usize = 0;
    while i < req.len()
        invariant
            w.wf(),
            a < w.n_archetypes(),
            *arch == w.archetypes@[a as int],
            0 <= i <= req@.len(),
            forall|j: int| 0 <= j < i ==> arch.has_component(#[trigger] req@[j]),
        decreases req@.len() - i,
    {
        if !arch_has(arch, req[i], Ghost(a as int), Ghost(w.component_layouts@)) {
            return false;
        }
        i = i + 1;
    }
    let mut k: usize = 0;
    while k < exc.len()
        invariant
            w.wf(),
            a < w.n_archetypes(),
            *arch == w.archetypes@[a as int],
            0 <= k <= exc@.len(),
            forall|j: int| 0 <= j < req@.len() ==> arch.has_component(#[trigger] req@[j]),
            forall|j: int| 0 <= j < k ==> !arch.has_component(#[trigger] exc@[j]),
        decreases exc@.len() - k,
    {
        if arch_has(arch, exc[k], Ghost(a as int), Ghost(w.component_layouts@)) {
            return false;
        }
        k = k + 1;
    }
    true
}

/// The types among `keys` whose flag in `writes` is `w`.
pub open spec fn flagged(keys: Seq<u64>, writes: Seq<bool>, w: bool) -> Set<u64> {
    Set::new(|k: u64| exists|i: int| 0 <= i < keys.len() && keys[i] == k && writes[i] == w)
}

impl QueryState {
    /// What a system running the query touches: the fetched types read
    /// only, and those written.
    pub fn access(&self) -> (a: Access)
        requires
            self.shape_wf(),
        ensures
            a.reads@ == flagged(self.query_comp_keys@, self.query_writes@, false),
            a.writes@ == flagged(self.query_comp_keys@, self.query_writes@, true),
    {
        let mut reads: HashSet<u64> = HashSet::new();
        let mut writes: HashSet<u64> = HashSet::new();
        let n = self.query_comp_keys.len();
        let mut i: usize = 0;
        while i < n
            invariant
                self.shape_wf(),
                n == self.query_comp_keys@.len(),
                0 <= i <= n,
                reads@ == flagged(self.query_comp_keys@.take(i as int), self.query_writes@.take(i as int), false),
                writes@ == flagged(self.query_comp_keys@.take(i as int), self.query_writes@.take(i as int), true),
            decreases n - i,
        {
            let k = self.query_comp_keys[i];
            let ghost keys = self.query_comp_keys@;
            let ghost fl = self.query_writes@;
            if self.query_writes[i] {
                writes.insert(k);
            } else {
                reads.insert(k);
            }
            proof {
                let ki = keys.take(i + 1);
                let wi = fl.take(i + 1);
                assert forall|x: u64| reads@.contains(x) == flagged(ki, wi, false).contains(x) by {
                    if flagged(keys.take(i as int), fl.take(i as int), false).contains(x) {
                        let j = choose|j: int| 0 <= j < i && keys.take(i as int)[j] == x && fl.take(i as int)[j] == false;
                        assert(ki[j] == x && wi[j] == false);
                    }
                    if flagged(ki, wi, false).contains(x) {
                        let j = choose|j: int| 0 <= j < i + 1 && ki[j] == x && wi[j] == false;
                        if j < i {
                            assert(keys.take(i as int)[j] == x && fl.take(i as int)[j] == false);
                        }
                    }
                    if !fl[i as int] && x == k {
                        assert(ki[i as int] == x && wi[i as int] == false);
                    }
                }
                assert forall|x: u64| writes@.contains(x) == flagged(ki, wi, true).contains(x) by {
                    if flagged(keys.take(i as int), fl.take(i as int), true).contains(x) {
                        let j = choose|j: int| 0 <= j < i && keys.take(i as int)[j] == x && fl.take(i as int)[j] == true;
                        assert(ki[j] == x && wi[j] == true);
                    }
                    if flagged(ki, wi, true).contains(x) {
                        let j = choose|j: int| 0 <= j < i + 1 && ki[j] == x && wi[j] == true;
                        if j < i {
                            assert(keys.take(i as int)[j] == x && fl.take(i as int)[j] == true);
                        }
                    }
                    if fl[i as int] && x == k {
                        assert(ki[i as int] == x && wi[i as int] == true);
                    }
                }
                assert(reads@ =~= flagged(ki, wi, false));
                assert(writes@ =~= flagged(ki, wi, true));
            }
            i = i + 1;
        }
        proof {
            assert(self.query_comp_keys@.take(n as int) =~= self.query_comp_keys@);
            assert(self.query_writes@.take(n as int) =~= self.query_writes@);
        }
        Access { reads, writes }
    }
}

/// Whether `a` holds component `c`, read off its column map.
fn arch_has(a: &Archetype, c: usize, Ghost(idx): Ghost<int>, Ghost(layouts): Ghost<Seq<ItemLayout>>) -> (b: bool)
    requires
        a.wf(idx, layouts),
        layouts.len() < u32::MAX,
    ensures
        b == a.has_component(c),
{
    proof {
        lemma_sorted_len(a.signature@, layouts.len());
    }
    if c < a.component_to_column.len() {
        let col = a.component_to_column[c];
        proof {
            if a.has_component(c) {
                let i = a.signature@.index_of(c);
                assert(a.signature@[i] == c);
            }
        }
        col != NO_COLUMN
    } else {
        proof {
            if a.has_component(c) {
                let i = a.signature@.index_of(c);
                assert(a.signature@[i] == c);
            }
        }
        false
    }
}

} // verus!

verus! {

/// A query run against a world: the cache brought up to date, and the tick
/// at which the query ran before.
pub struct Query<'a> {
    pub world: &'a World,
    pub state: &'a QueryState,
    pub last_run_tick: u32,
}

impl<'a> Query<'a> {
    /// The world is sound and the cache agrees with it.
    pub open spec fn wf(&self) -> bool {
        &&& self.world.wf()
        &&& self.state.cache_wf(self.world)
    }

    /// Archetype `a` is listed as matching: scanned, and holding the
    /// required components and none of the excluded.
    pub open spec fn listed(&self, a: int) -> bool {
        &&& self.state.initialized
        &&& a < self.state.last_archetype_count
        &&& self.state.matches(self.world, a)
    }

    /// The live entity of slot `id`, at its current generation.
    pub open spec fn slot_entity(&self, id: u32) -> Entity {
        Entity { id, generation: self.world.record(id).generation }
    }

    /// The bytes of the fetched components of live `e`, in query order.
    pub open spec fn fetched(&self, e: Entity) -> Seq<Seq<u8>> {
        self.state.query_ids@.map_values(|c: usize| self.world.value(e, c))
    }
}

impl<'a> Query<'a> {
    /// The bytes of the fetched components in row `row` of archetype `a`,
    /// listed as the `m`-th match.
    fn fetch_row(&self, a: usize, row: usize, m: usize) -> (r: Vec<&'a Vec<u8>>)
        requires
            self.wf(),
            self.state.initialized,
            m < self.state.matched_archetypes@.len(),
            self.state.matched_archetypes@[m as int].arch_index == a,
            row < self.world.archetypes@[a as int].entities@.len(),
        ensures
            r@.len() == self.state.query_ids@.len(),
            forall|k: int|
                0 <= k < r@.len() ==> (#[trigger] r@[k])@ == self.world.archetypes@[a as int].columns@[self.world.archetypes@[a as int].col_of(
                    self.state.query_ids@[k],
                )].data@[row as int],
    {
        let w: &'a World = self.world;
        let st: &'a QueryState = self.state;
        let arch = &w.archetypes[a];
        let ma = st.matched_archetypes[m];
        let nq = st.query_ids.len();
        proof {
            assert(self.state.matched_archetypes@[m as int] == ma);
            assert(arch.wf(a as int, w.component_layouts@));
        }
        let mut r: Vec<&'a Vec<u8>> = Vec::new();
        let mut k: usize = 0;
        while k < nq
            invariant
                self.wf(),
                self.state.initialized,
                w == self.world,
                st == self.state,
                *arch == w.archetypes@[a as int],
                a < w.n_archetypes(),
                arch.wf(a as int, w.component_layouts@),
                ma == st.matched_archetypes@[m as int],
                m < st.matched_archetypes@.len(),
                ma.arch_index == a,
                row < arch.entities@.len(),
                nq == st.query_ids@.len(),
                0 <= k <= nq,
                r@.len() == k,
                forall|j: int|
                    0 <= j < k ==> (#[trigger] r@[j])@ == arch.columns@[arch.col_of(st.query_ids@[j])].data@[row as int],
            decreases nq - k,
        {
            let qlen = st.query_columns.len();
            proof {
                assert(ma.query_cols_start + nq <= qlen);
            }
            let col = st.query_columns[ma.query_cols_start + k];
            proof {
                let c = st.query_ids@[k as int];
                assert(col == column_of(w, a as int, c));
                assert(st.required_components@[k as int] == st.query_comp_keys@[k as int]);
                assert(w.component_id(st.query_comp_keys@[k as int]) == Some(c));
                assert(st.req_ids@[k as int] == c);
                assert(arch.has_component(st.req_ids@[k as int]));
                let i = arch.signature@.index_of(c);
                assert(arch.signature@[i] == c);
                assert(arch.columns@[col as int].wf());
            }
            r.push(arch.columns[col as usize].data.get_raw(row));
            k = k + 1;
        }
        r
    }

    /// The bytes of the fetched components of `entity`, in query order,
    /// when it is live and its archetype is listed as matching. The row
    /// filters are not applied.
    pub fn get(&self, entity: Entity) -> (r: Option<Vec<&'a Vec<u8>>>)
        requires
            self.wf(),
            self.world.alive(entity) ==> {
                &&& self.state.initialized
                &&& self.world.record(entity.id).archetype_id < self.state.archetype_mapping@.len()
            },
        ensures
            match r {
                Some(v) => {
                    &&& self.world.alive(entity)
                    &&& self.listed(self.world.record(entity.id).archetype_id as int)
                    &&& v@.len() == self.state.query_ids@.len()
                    &&& forall|k: int| 0 <= k < v@.len() ==> (#[trigger] v@[k])@ == self.fetched(entity)[k]
                },
                None => !self.world.alive(entity) || !self.listed(
                    self.world.record(entity.id).archetype_id as int,
                ),
            },
    {
        let id = entity.id as usize;
        if id >= self.world.records.len() {
            return None;
        }
        let rec = self.world.records[id];
        if rec.generation != entity.generation || rec.archetype_id == NO_ARCHETYPE {
            return None;
        }
        let a = rec.archetype_id as usize;
        let m_idx = self.state.archetype_mapping[a];
        if m_idx == NO_ARCHETYPE {
            proof {
                if self.listed(a as int) {
                    assert(self.state.archetype_mapping@[a as int] != NO_ARCHETYPE);
                }
            }
            return None;
        }
        proof {
            assert(a < self.state.last_archetype_count);
            assert(self.state.matched_archetypes@[m_idx as int].arch_index == a);
        }
        let r = self.fetch_row(a, rec.row as usize, m_idx as usize);
        proof {
            assert forall|k: int| 0 <= k < r@.len() implies (#[trigger] r@[k])@ == self.fetched(entity)[k] by {
                assert(self.fetched(entity)[k] == self.world.value(entity, self.state.query_ids@[k]));
            }
        }
        Some(r)
    }
}

impl<'a> Query<'a> {
    /// The archetype listed as the `m`-th match.
    pub open spec fn arch(&self, m: int) -> Archetype {
        self.world.archetypes@[self.state.matched_archetypes@[m].arch_index as int]
    }

    /// The column index, in the `m`-th matched archetype, of the component
    /// of the `k`-th filter term.
    pub open spec fn filter_col_index(&self, m: int, k: int) -> int {
        self.state.filter_columns@[self.state.matched_archetypes@[m].filter_cols_start + k] as int
    }

    /// The column, in the `m`-th matched archetype, of the component of the
    /// `k`-th filter term.
    pub open spec fn filter_col(&self, m: int, k: int) -> Column {
        self.arch(m).columns@[self.filter_col_index(m, k)]
    }

    /// The `m`-th matched archetype passes the archetype-level test of every
    /// filter term: for `Added` and `Changed`, its column was added to or
    /// changed after the last run.
    pub open spec fn arch_passes(&self, m: int) -> bool {
        forall|k: int|
            0 <= k < self.state.filters@.len() ==> match #[trigger] self.state.filters@[k] {
                FilterTerm::Added(_) => self.filter_col(m, k).last_added_tick > self.last_run_tick,
                FilterTerm::Changed(_) => self.filter_col(m, k).last_changed_tick > self.last_run_tick,
                _ => true,
            }
    }

    /// Row `r` of the `m`-th matched archetype passes every filter term: for
    /// `Added`, its component was added in the current tick; for `Changed`,
    /// it changed after the last run.
    pub open spec fn row_passes(&self, m: int, r: int) -> bool {
        forall|k: int|
            0 <= k < self.state.filters@.len() ==> match #[trigger] self.state.filters@[k] {
                FilterTerm::Added(_) => self.filter_col(m, k).added_ticks@[r] == self.world.current_tick,
                FilterTerm::Changed(_) => self.filter_col(m, k).changed_ticks@[r] > self.last_run_tick,
                _ => true,
            }
    }

    /// The entities of the first `n` rows of the `m`-th matched archetype
    /// that pass the row filters, in row order.
    pub open spec fn rows_kept(&self, m: int, n: int) -> Seq<Entity>
        decreases n,
    {
        if n <= 0 {
            Seq::empty()
        } else if self.row_passes(m, n - 1) {
            self.rows_kept(m, n - 1).push(self.arch(m).entities@[n - 1])
        } else {
            self.rows_kept(m, n - 1)
        }
    }

    /// The entities that the query yields from the `m`-th matched archetype.
    pub open spec fn matched_rows(&self, m: int) -> Seq<Entity> {
        if self.arch_passes(m) {
            self.rows_kept(m, self.arch(m).entities@.len() as int)
        } else {
            Seq::empty()
        }
    }

    /// The entities that the query yields from the first `k` matched
    /// archetypes.
    pub open spec fn rows_upto(&self, k: int) -> Seq<Entity>
        decreases k,
    {
        if k <= 0 {
            Seq::empty()
        } else {
            self.rows_upto(k - 1) + self.matched_rows(k - 1)
        }
    }

    /// The entities that the query yields, in order.
    pub open spec fn rows(&self) -> Seq<Entity> {
        self.rows_upto(self.state.matched_archetypes@.len() as int)
    }

    /// The filter column of term `k` in the `m`-th matched archetype is one
    /// of its columns, with a tick per row.
    proof fn lemma_filter_col(&self, m: int, k: int)
        requires
            self.wf(),
            self.state.initialized,
            0 <= m < self.state.matched_archetypes@.len(),
            0 <= k < self.state.filters@.len(),
        ensures
            self.state.matched_archetypes@[m].filter_cols_start + k < self.state.filter_columns@.len(),
            0 <= self.filter_col_index(m, k) < self.arch(m).columns@.len(),
            self.filter_col(m, k).wf(),
            self.filter_col(m, k).len() == self.arch(m).entities@.len(),
            self.state.matched_archetypes@[m].arch_index < self.world.n_archetypes(),
    {
        let st = self.state;
        let w = self.world;
        let ma = st.matched_archetypes@[m];
        let a = ma.arch_index as int;
        let nq = st.query_ids@.len() as int;
        let c = st.filter_ids@[k];
        assert(self.filter_col_index(m, k) == column_of(w, a, c));
        assert(st.required_components@[nq + k] == term_key(st.filters@[k]));
        assert(w.component_id(st.required_components@[nq + k]) == Some(st.req_ids@[nq + k]));
        assert(st.req_ids@[nq + k] == c);
        assert(w.archetypes@[a].wf(a, w.component_layouts@));
        assert(w.archetypes@[a].has_component(st.req_ids@[nq + k]));
        let i = w.archetypes@[a].signature@.index_of(c);
        assert(w.archetypes@[a].signature@[i] == c);
        assert(w.archetypes@[a].columns@[self.filter_col_index(m, k)].wf());
    }
}

impl<'a> Query<'a> {
    /// Whether the `m`-th matched archetype passes the archetype-level
    /// filter tests.
    fn arch_check(&self, m: usize) -> (b: bool)
        requires
            self.wf(),
            self.state.initialized,
            m < self.state.matched_archetypes@.len(),
        ensures
            b == self.arch_passes(m as int),
    {
        let st = self.state;
        let ma = st.matched_archetypes[m];
        let arch = &self.world.archetypes[ma.arch_index as usize];
        let nf = st.filters.len();
        let flen = st.filter_columns.len();
        let mut k: usize = 0;
        while k < nf
            invariant
                self.wf(),
                self.state.initialized,
                st == self.state,
                m < st.matched_archetypes@.len(),
                ma == st.matched_archetypes@[m as int],
                *arch == self.arch(m as int),
                nf == st.filters@.len(),
                flen == st.filter_columns@.len(),
                0 <= k <= nf,
                forall|j: int|
                    0 <= j < k ==> match #[trigger] st.filters@[j] {
                        FilterTerm::Added(_) => self.filter_col(m as int, j).last_added_tick > self.last_run_tick,
                        FilterTerm::Changed(_) => self.filter_col(m as int, j).last_changed_tick > self.last_run_tick,
                        _ => true,
                    },
            decreases nf - k,
        {
            proof {
                self.lemma_filter_col(m as int, k as int);
            }
            let ci = st.filter_columns[ma.filter_cols_start + k] as usize;
            let col = &arch.columns[ci];
            match st.filters[k] {
                FilterTerm::Added(_) => {
                    if col.last_added_tick <= self.last_run_tick {
                        return false;
                    }
                },
                FilterTerm::Changed(_) => {
                    if col.last_changed_tick <= self.last_run_tick {
                        return false;
                    }
                },
                _ => {},
            }
            k = k + 1;
        }
        true
    }

    /// Whether row `row` of the `m`-th matched archetype passes the row
    /// filters.
    fn row_check(&self, m: usize, row: usize) -> (b: bool)
        requires
            self.wf(),
            self.state.initialized,
            m < self.state.matched_archetypes@.len(),
            row < self.arch(m as int).entities@.len(),
        ensures
            b == self.row_passes(m as int, row as int),
    {
        let st = self.state;
        let ma = st.matched_archetypes[m];
        let arch = &self.world.archetypes[ma.arch_index as usize];
        let nf = st.filters.len();
        let flen = st.filter_columns.len();
        let mut k: usize = 0;
        while k < nf
            invariant
                self.wf(),
                self.state.initialized,
                st == self.state,
                m < st.matched_archetypes@.len(),
                row < self.arch(m as int).entities@.len(),
                ma == st.matched_archetypes@[m as int],
                *arch == self.arch(m as int),
                nf == st.filters@.len(),
                flen == st.filter_columns@.len(),
                0 <= k <= nf,
                forall|j: int|
                    0 <= j < k ==> match #[trigger] st.filters@[j] {
                        FilterTerm::Added(_) => self.filter_col(m as int, j).added_ticks@[row as int] == self.world.current_tick,
                        FilterTerm::Changed(_) => self.filter_col(m as int, j).changed_ticks@[row as int] > self.last_run_tick,
                        _ => true,
                    },
            decreases nf - k,
        {
            proof {
                self.lemma_filter_col(m as int, k as int);
            }
            let ci = st.filter_columns[ma.filter_cols_start + k] as usize;
            let col = &arch.columns[ci];
            match st.filters[k] {
                FilterTerm::Added(_) => {
                    if col.added_ticks[row] != self.world.current_tick {
                        return false;
                    }
                },
                FilterTerm::Changed(_) => {
                    if col.changed_ticks[row] <= self.last_run_tick {
                        return false;
                    }
                },
                _ => {},
            }
            k = k + 1;
        }
        true
    }

    /// The entities that the query yields, archetype by archetype in the
    /// order they were listed and row by row within each.
    pub fn iter(&self) -> (r: Vec<Entity>)
        requires
            self.wf(),
        ensures
            r@ == self.rows(),
    {
        let st = self.state;
        let nm = st.matched_archetypes.len();
        let mut out: Vec<Entity> = Vec::new();
        let mut m: usize = 0;
        while m < nm
            invariant
                self.wf(),
                st == self.state,
                nm == st.matched_archetypes@.len(),
                0 <= m <= nm,
                out@ == self.rows_upto(m as int),
            decreases nm - m,
        {
            proof {
                assert(st.initialized);
            }
            let ma = st.matched_archetypes[m];
            let arch = &self.world.archetypes[ma.arch_index as usize];
            if self.arch_check(m) {
                let len = arch.entities.len();
                let mut row: usize = 0;
                while row < len
                    invariant
                        self.wf(),
                        st == self.state,
                        st.initialized,
                        nm == st.matched_archetypes@.len(),
                        m < nm,
                        *arch == self.arch(m as int),
                        len == arch.entities@.len(),
                        0 <= row <= len,
                        self.arch_passes(m as int),
                        out@ == self.rows_upto(m as int) + self.rows_kept(m as int, row as int),
                    decreases len - row,
                {
                    if self.row_check(m, row) {
                        out.push(arch.entities[row]);
                    }
                    proof {
                        assert(out@ =~= self.rows_upto(m as int) + self.rows_kept(m as int, row + 1));
                    }
                    row = row + 1;
                }
            } else {
                proof {
                    assert(self.matched_rows(m as int) =~= Seq::<Entity>::empty());
                }
            }
            proof {
                assert(self.rows_upto(m + 1) == self.rows_upto(m as int) + self.matched_rows(m as int));
                assert(out@ =~= self.rows_upto(m + 1));
            }
            m = m + 1;
        }
        out
    }

    /// The bytes of the fetched components of the live entity in slot `id`,
    /// whatever its generation, when its archetype is listed as matching.
    pub fn get_by_id(&self, id: u32) -> (r: Option<Vec<&'a Vec<u8>>>)
        requires
            self.wf(),
            id < self.world.records@.len() && self.world.record(id).archetype_id != NO_ARCHETYPE ==> {
                &&& self.state.initialized
                &&& self.world.record(id).archetype_id < self.state.archetype_mapping@.len()
            },
        ensures
            match r {
                Some(v) => {
                    &&& self.world.alive(self.slot_entity(id))
                    &&& self.listed(self.world.record(id).archetype_id as int)
                    &&& v@.len() == self.state.query_ids@.len()
                    &&& forall|k: int| 0 <= k < v@.len() ==> (#[trigger] v@[k])@ == self.fetched(self.slot_entity(id))[k]
                },
                None => !self.world.alive(self.slot_entity(id)) || !self.listed(
                    self.world.record(id).archetype_id as int,
                ),
            },
    {
        if (id as usize) >= self.world.records.len() {
            return None;
        }
        let rec = self.world.records[id as usize];
        self.get(Entity { id, generation: rec.generation })
    }

    /// The number of entities that the query yields.
    pub fn len(&self) -> (n: usize)
        requires
            self.wf(),
        ensures
            n == self.rows().len(),
    {
        self.iter().len()
    }

    /// Whether the query yields no entity.
    pub fn is_empty(&self) -> (b: bool)
        requires
            self.wf(),
        ensures
            b == (self.rows().len() == 0),
    {
        self.len() == 0
    }
}

/// Brings `state` up to date with `world` and runs the query: the query
/// sees the tick at which it ran before, and the state records the current
/// tick as its last run.
pub fn get_param<'a>(state: &'a mut QueryState, world: &'a World) -> (q: Query<'a>)
    requires
        world.wf(),
        old(state).cache_wf(world),
    ensures
        q.wf(),
        q.world == world,
        q.last_run_tick == old(state).last_run_tick,
        q.state.last_run_tick == world.current_tick,
        q.state.same_shape(old(state)),
        old(state).initialized && old(state).last_structural_gen == world.structural_gen ==> *q.state == (QueryState {
            last_run_tick: world.current_tick,
            ..*old(state)
        }),
        !(old(state).initialized && old(state).last_structural_gen == world.structural_gen) ==> {
            &&& q.state.initialized == (old(state).initialized || old(state).resolvable(world))
            &&& q.state.initialized ==> {
                &&& q.state.last_archetype_count == world.n_archetypes()
                &&& q.state.last_structural_gen == world.structural_gen
            }
        },
{
    state.update_cache(world);
    let prev_tick = state.last_run_tick;
    state.last_run_tick = world.current_tick;
    Query { world, state, last_run_tick: prev_tick }
}

} // verus!
