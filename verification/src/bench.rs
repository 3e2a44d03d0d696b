use vstd::prelude::*;

verus! {

/// A marker component without data, used by the benchmark workloads.
pub struct Marker;

/// A marker component that filtered queries require.
pub struct MarkerA;

/// A marker component that filtered queries exclude.
pub struct MarkerB;

/// A marker component added and removed by the structural workloads.
pub struct Tag;

/// The machine and build that a benchmark run was measured on.
pub struct BenchEnv {
    pub platform: &'static str,
    pub target_arch: &'static str,
    pub target_os: &'static str,
    pub target_family: &'static str,
    pub profile: &'static str,
    pub opt_level: &'static str,
    pub debug_assertions: bool,
    pub rustc_version: &'static str,
    pub host_triple: &'static str,
    pub git_commit: &'static str,
    pub git_dirty: bool,
    pub artisan_version: &'static str,
    pub rayon_threads: usize,
    pub available_parallelism: usize,
    pub cpu_brand: String,
    pub total_memory_mb: u64,
    pub os_description: String,
    pub timestamp_unix: u64,
}

/// The group of a benchmark case.
#[derive(Clone, Copy, PartialEq, Eq, Structural, Debug)]
pub enum Group {
    Core,
}

/// The question a benchmark case answers.
#[derive(Clone, Copy, PartialEq, Eq, Structural, Debug)]
pub enum SubQuestion {
    NativeComparison,
    EcsProperties,
}

/// What a benchmark case measures, and what its checksum stands for.
#[derive(Clone, Copy)]
pub struct BenchSpec {
    pub id: u32,
    pub name: &'static str,
    pub entity_count: usize,
    pub inner_iters: u32,
    pub group: Group,
    pub subquestion: SubQuestion,
    pub measures: &'static str,
    pub excludes: &'static str,
    pub checksum_of: &'static str,
}

/// A case of the core suite; its workload is found by its id.
#[derive(Clone, Copy)]
pub struct Case {
    pub spec: BenchSpec,
}

/// The spec of the core case at index `i`, for `i` from 0 to 10.
pub open spec fn core_spec(i: int) -> BenchSpec {
    if i == 0 {
        BenchSpec {
            id: 1,
            name: "1. Entity Spawn",
            entity_count: 1_000_000,
            inner_iters: 1,
            group: Group::Core,
            subquestion: SubQuestion::NativeComparison,
            measures: "1M individual spawn_with((Pos, Vel)) calls incl. archetype lookup and column growth",
            excludes: "World construction and component type registration",
            checksum_of: "live entity count after the measured loop",
        }
    } else if i == 1 {
        BenchSpec {
            id: 2,
            name: "2. Entity Despawn",
            entity_count: 1_000_000,
            inner_iters: 1,
            group: Group::Core,
            subquestion: SubQuestion::NativeComparison,
            measures: "1M individual kill() calls incl. swap-remove and free-list handling",
            excludes: "spawning the 1M entities and collecting their handles",
            checksum_of: "live entity count after the measured loop (must be 0)",
        }
    } else if i == 2 {
        BenchSpec {
            id: 3,
            name: "3. Dense Iteration",
            entity_count: 1_000_000,
            inner_iters: 100,
            group: Group::Core,
            subquestion: SubQuestion::EcsProperties,
            measures: "100 passes of (&mut Pos, &Vel) over one dense archetype, incl. per-pass query retrieval and tick increment",
            excludes: "spawning the 1M entities and building the initial query state",
            checksum_of: "sum of all Pos.x as f64 bits (expected 100.0 per entity)",
        }
    } else if i == 3 {
        BenchSpec {
            id: 4,
            name: "4. Fragmented Iteration",
            entity_count: 100_000,
            inner_iters: 100,
            group: Group::Core,
            subquestion: SubQuestion::EcsProperties,
            measures: "100 passes of (&mut Pos, &Vel) spread over 26 archetypes",
            excludes: "spawning and distributing the entities over the marker components",
            checksum_of: "sum of all Pos.x as f64 bits",
        }
    } else if i == 4 {
        BenchSpec {
            id: 5,
            name: "5. Add/Remove Churn",
            entity_count: 100_000,
            inner_iters: 100,
            group: Group::Core,
            subquestion: SubQuestion::EcsProperties,
            measures: "100 rounds of adding and removing one marker on 100k entities (200k archetype moves per round)",
            excludes: "spawning the entities",
            checksum_of: "live entity count and remaining marker matches (must be 0)",
        }
    } else if i == 5 {
        BenchSpec {
            id: 6,
            name: "6. Query Filtering",
            entity_count: 200_000,
            inner_iters: 100,
            group: Group::Core,
            subquestion: SubQuestion::EcsProperties,
            measures: "100 passes of (&mut Pos, &Vel) filtered by (With<A>, Without<B>) — half the entities match",
            excludes: "spawning and marking the entities",
            checksum_of: "sum of all Pos.x as f64 bits (only matching rows advance)",
        }
    } else if i == 6 {
        BenchSpec {
            id: 7,
            name: "7. Mixed Density",
            entity_count: 100_255,
            inner_iters: 100,
            group: Group::Core,
            subquestion: SubQuestion::EcsProperties,
            measures: "100 passes over 255 single-entity archetypes plus one archetype holding 100k entities",
            excludes: "building the 256 archetype combinations",
            checksum_of: "sum of all Pos.x as f64 bits",
        }
    } else if i == 7 {
        BenchSpec {
            id: 8,
            name: "8. Scheduling",
            entity_count: 100_000,
            inner_iters: 100,
            group: Group::Core,
            subquestion: SubQuestion::NativeComparison,
            measures: "100 full App::update() calls running three systems that write different Pos fields",
            excludes: "App construction, entity spawning and system registration",
            checksum_of: "sum of all Pos.x as f64 bits",
        }
    } else if i == 8 {
        BenchSpec {
            id: 9,
            name: "9. System Churn",
            entity_count: 100_000,
            inner_iters: 100,
            group: Group::Core,
            subquestion: SubQuestion::EcsProperties,
            measures: "100 updates of two systems adding and removing a marker through deferred Commands",
            excludes: "App construction, entity spawning and system registration",
            checksum_of: "live entity count",
        }
    } else if i == 9 {
        BenchSpec {
            id: 10,
            name: "10. Sparse Change Stress",
            entity_count: 1_000_000,
            inner_iters: 100,
            group: Group::Core,
            subquestion: SubQuestion::EcsProperties,
            measures: "100 rounds of mutating up to 1000 rows through the tracked write path, then querying Changed<Pos> across 100 archetypes",
            excludes: "spawning and distributing 1M entities over 100 component combinations",
            checksum_of: "accumulated values observed through Changed<Pos>",
        }
    } else {
        BenchSpec {
            id: 11,
            name: "11. Bulk Structural Churn",
            entity_count: 1_000_000,
            inner_iters: 100,
            group: Group::Core,
            subquestion: SubQuestion::NativeComparison,
            measures: "100 rounds of spawning 10k entities, removing a marker from each and despawning them — 1M entities in total",
            excludes: "World construction and component type registration",
            checksum_of: "live entity count after the measured loop (must be 0)",
        }
    }
}

/// The core case at index `i` has id `i + 1` and the spec listed for it.
pub open spec fn core_case_at(c: Case, i: int) -> bool {
    c.spec == core_spec(i)
}

fn native(
    id: u32,
    name: &'static str,
    entity_count: usize,
    inner_iters: u32,
    measures: &'static str,
    excludes: &'static str,
    checksum_of: &'static str,
) -> (c: Case)
    ensures
        c.spec == (BenchSpec {
            id,
            name,
            entity_count,
            inner_iters,
            group: Group::Core,
            subquestion: SubQuestion::NativeComparison,
            measures,
            excludes,
            checksum_of,
        }),
{
    Case {
        spec: BenchSpec {
            id,
            name,
            entity_count,
            inner_iters,
            group: Group::Core,
            subquestion: SubQuestion::NativeComparison,
            measures,
            excludes,
            checksum_of,
        },
    }
}

fn property(
    id: u32,
    name: &'static str,
    entity_count: usize,
    inner_iters: u32,
    measures: &'static str,
    excludes: &'static str,
    checksum_of: &'static str,
) -> (c: Case)
    ensures
        c.spec == (BenchSpec {
            id,
            name,
            entity_count,
            inner_iters,
            group: Group::Core,
            subquestion: SubQuestion::EcsProperties,
            measures,
            excludes,
            checksum_of,
        }),
{
    Case {
        spec: BenchSpec {
            id,
            name,
            entity_count,
            inner_iters,
            group: Group::Core,
            subquestion: SubQuestion::EcsProperties,
            measures,
            excludes,
            checksum_of,
        },
    }
}

/// The eleven cases of the core suite, by id.
pub fn core_cases() -> (v: Vec<Case>)
    ensures
        v@.len() == 11,
        forall|i: int| 0 <= i < 11 ==> core_case_at(#[trigger] v@[i], i),
{
    let mut v: Vec<Case> = Vec::new();
    v.push(native(
        1,
        "1. Entity Spawn",
        1_000_000,
        1,
        "1M individual spawn_with((Pos, Vel)) calls incl. archetype lookup and column growth",
        "World construction and component type registration",
        "live entity count after the measured loop",
    ));
    v.push(native(
        2,
        "2. Entity Despawn",
        1_000_000,
        1,
        "1M individual kill() calls incl. swap-remove and free-list handling",
        "spawning the 1M entities and collecting their handles",
        "live entity count after the measured loop (must be 0)",
    ));
    v.push(property(
        3,
        "3. Dense Iteration",
        1_000_000,
        100,
        "100 passes of (&mut Pos, &Vel) over one dense archetype, incl. per-pass query retrieval and tick increment",
        "spawning the 1M entities and building the initial query state",
        "sum of all Pos.x as f64 bits (expected 100.0 per entity)",
    ));
    v.push(property(
        4,
        "4. Fragmented Iteration",
        100_000,
        100,
        "100 passes of (&mut Pos, &Vel) spread over 26 archetypes",
        "spawning and distributing the entities over the marker components",
        "sum of all Pos.x as f64 bits",
    ));
    v.push(property(
        5,
        "5. Add/Remove Churn",
        100_000,
        100,
        "100 rounds of adding and removing one marker on 100k entities (200k archetype moves per round)",
        "spawning the entities",
        "live entity count and remaining marker matches (must be 0)",
    ));
    v.push(property(
        6,
        "6. Query Filtering",
        200_000,
        100,
        "100 passes of (&mut Pos, &Vel) filtered by (With<A>, Without<B>) — half the entities match",
        "spawning and marking the entities",
        "sum of all Pos.x as f64 bits (only matching rows advance)",
    ));
    v.push(property(
        7,
        "7. Mixed Density",
        100_255,
        100,
        "100 passes over 255 single-entity archetypes plus one archetype holding 100k entities",
        "building the 256 archetype combinations",
        "sum of all Pos.x as f64 bits",
    ));
    v.push(native(
        8,
        "8. Scheduling",
        100_000,
        100,
        "100 full App::update() calls running three systems that write different Pos fields",
        "App construction, entity spawning and system registration",
        "sum of all Pos.x as f64 bits",
    ));
    v.push(property(
        9,
        "9. System Churn",
        100_000,
        100,
        "100 updates of two systems adding and removing a marker through deferred Commands",
        "App construction, entity spawning and system registration",
        "live entity count",
    ));
    v.push(property(
        10,
        "10. Sparse Change Stress",
        1_000_000,
        100,
        "100 rounds of mutating up to 1000 rows through the tracked write path, then querying Changed<Pos> across 100 archetypes",
        "spawning and distributing 1M entities over 100 component combinations",
        "accumulated values observed through Changed<Pos>",
    ));
    v.push(native(
        11,
        "11. Bulk Structural Churn",
        1_000_000,
        100,
        "100 rounds of spawning 10k entities, removing a marker from each and despawning them — 1M entities in total",
        "World construction and component type registration",
        "live entity count after the measured loop (must be 0)",
    ));
    proof {
        assert forall|i: int| 0 <= i < 11 implies core_case_at(#[trigger] v@[i], i) by {}
    }
    v
}

/// The specs of the core cases, in order.
pub fn manifest() -> (v: Vec<BenchSpec>)
    ensures
        v@.len() == 11,
        forall|i: int| 0 <= i < 11 ==> core_case_at(Case { spec: #[trigger] v@[i] }, i),
{
    let cases = core_cases();
    let mut v: Vec<BenchSpec> = Vec::new();
    let mut i: usize = 0;
    while i < cases.len()
        invariant
            cases@.len() == 11,
            forall|k: int| 0 <= k < 11 ==> core_case_at(#[trigger] cases@[k], k),
            0 <= i <= 11,
            v@.len() == i,
            forall|k: int| 0 <= k < i ==> #[trigger] v@[k] == cases@[k].spec,
        decreases 11 - i,
    {
        v.push(cases[i].spec);
        i = i + 1;
    }
    proof {
        assert forall|k: int| 0 <= k < 11 implies core_case_at(Case { spec: #[trigger] v@[k] }, k) by {
            assert(core_case_at(cases@[k], k));
        }
    }
    v
}

/// The core case with id `id`, if there is one (the selection that running
/// a single case makes).
pub fn select_case(id: u32) -> (r: Option<Case>)
    ensures
        r is Some <==> 1 <= id <= 11,
        r matches Some(c) ==> core_case_at(c, id - 1),
{
    let cases = core_cases();
    let mut i: usize = 0;
    while i < cases.len()
        invariant
            cases@.len() == 11,
            forall|k: int| 0 <= k < 11 ==> core_case_at(#[trigger] cases@[k], k),
            0 <= i <= 11,
            forall|k: int| 0 <= k < i ==> cases@[k].spec.id != id,
        decreases 11 - i,
    {
        if cases[i].spec.id == id {
            return Some(cases[i]);
        }
        i = i + 1;
    }
    proof {
        if 1 <= id <= 11 {
            assert(cases@[id - 1].spec.id == id);
        }
    }
    None
}

/// `ids` holds `id`.
pub open spec fn lists(ids: Seq<u32>, id: u32) -> bool {
    exists|i: int| 0 <= i < ids.len() && ids[i] == id
}

/// A suite run with `ids` measures case `id`: every case when `ids` is
/// empty, else those whose id `ids` holds.
pub open spec fn wanted(ids: Seq<u32>, id: u32) -> bool {
    ids.len() == 0 || lists(ids, id)
}

/// The core cases that a suite run with `ids` measures, in order of id.
pub fn suite_cases(ids: &Vec<u32>) -> (v: Vec<Case>)
    ensures
        forall|k: int| 0 <= k < v@.len() ==> core_case_at(#[trigger] v@[k], v@[k].spec.id - 1),
        forall|k: int| 0 <= k < v@.len() ==> 1 <= (#[trigger] v@[k]).spec.id <= 11 && wanted(ids@, v@[k].spec.id),
        forall|id: u32| 1 <= id <= 11 && #[trigger] wanted(ids@, id) ==> exists|k: int|
            0 <= k < v@.len() && (#[trigger] v@[k]).spec.id == id,
        forall|k: int, l: int| 0 <= k < l < v@.len() ==> v@[k].spec.id < v@[l].spec.id,
{
    let cases = core_cases();
    let mut v: Vec<Case> = Vec::new();
    let mut i: usize = 0;
    while i < cases.len()
        invariant
            cases@.len() == 11,
            forall|k: int| 0 <= k < 11 ==> core_case_at(#[trigger] cases@[k], k),
            0 <= i <= 11,
            forall|k: int| 0 <= k < v@.len() ==> core_case_at(#[trigger] v@[k], v@[k].spec.id - 1),
            forall|k: int| 0 <= k < v@.len() ==> 1 <= (#[trigger] v@[k]).spec.id <= i && wanted(ids@, v@[k].spec.id),
            forall|id: u32| 1 <= id <= i && #[trigger] wanted(ids@, id) ==> exists|k: int|
                0 <= k < v@.len() && (#[trigger] v@[k]).spec.id == id,
            forall|k: int, l: int| 0 <= k < l < v@.len() ==> v@[k].spec.id < v@[l].spec.id,
        decreases 11 - i,
    {
        let c = cases[i];
        proof {
            assert(core_case_at(cases@[i as int], i as int));
            assert(c.spec.id == i + 1);
        }
        let want = ids.len() == 0 || contains_id(ids, c.spec.id);
        let ghost before = v@;
        if want {
            v.push(c);
        }
        proof {
            assert forall|id: u32| 1 <= id <= i + 1 && #[trigger] wanted(ids@, id) implies exists|k: int|
                0 <= k < v@.len() && (#[trigger] v@[k]).spec.id == id by {
                if id <= i {
                    let k = choose|k: int| 0 <= k < before.len() && (#[trigger] before[k]).spec.id == id;
                    assert(v@[k] == before[k]);
                } else {
                    assert(v@[v@.len() - 1] == c);
                }
            }
        }
        i = i + 1;
    }
    v
}

/// Whether `ids` holds `id`.
fn contains_id(ids: &Vec<u32>, id: u32) -> (b: bool)
    ensures
        b == lists(ids@, id),
{
    let mut i: usize = 0;
    while i < ids.len()
        invariant
            0 <= i <= ids@.len(),
            forall|k: int| 0 <= k < i ==> ids@[k] != id,
        decreases ids@.len() - i,
    {
        if ids[i] == id {
            return true;
        }
        i = i + 1;
    }
    false
}

} // verus!
