use vstd::prelude::*;

verus! {

/// The decimal digit of `d`, below 10.
pub open spec fn digit(d: nat) -> char {
    if d == 0 { '0' }
    else if d == 1 { '1' }
    else if d == 2 { '2' }
    else if d == 3 { '3' }
    else if d == 4 { '4' }
    else if d == 5 { '5' }
    else if d == 6 { '6' }
    else if d == 7 { '7' }
    else if d == 8 { '8' }
    else { '9' }
}

/// The decimal notation of `n`, without leading zeros.
pub open spec fn decimal_chars(n: nat) -> Seq<char>
    decreases n,
{
    if n < 10 {
        seq![digit(n)]
    } else {
        decimal_chars(n / 10).push(digit(n % 10))
    }
}

/// The one-character text of the decimal digit `d`.
fn digit_str(d: usize) -> (s: &'static str)
    requires
        d < 10,
    ensures
        s@ == seq![digit(d as nat)],
{
    if d == 0 {
        proof { reveal_strlit("0"); }
        "0"
    } else if d == 1 {
        proof { reveal_strlit("1"); }
        "1"
    } else if d == 2 {
        proof { reveal_strlit("2"); }
        "2"
    } else if d == 3 {
        proof { reveal_strlit("3"); }
        "3"
    } else if d == 4 {
        proof { reveal_strlit("4"); }
        "4"
    } else if d == 5 {
        proof { reveal_strlit("5"); }
        "5"
    } else if d == 6 {
        proof { reveal_strlit("6"); }
        "6"
    } else if d == 7 {
        proof { reveal_strlit("7"); }
        "7"
    } else if d == 8 {
        proof { reveal_strlit("8"); }
        "8"
    } else {
        proof { reveal_strlit("9"); }
        "9"
    }
}

/// The decimal notation of `n`: its digits, most significant first,
/// without leading zeros.
fn decimal(n: usize) -> (s: String)
    ensures
        s@ == decimal_chars(n as nat),
    decreases n,
{
    if n < 10 {
        String::from_str(digit_str(n))
    } else {
        let mut s = decimal(n / 10);
        let ghost head = s@;
        s.append(digit_str(n % 10));
        proof {
            assert(s@ =~= head.push(digit((n % 10) as nat)));
        }
        s
    }
}

/// `a` followed by `b`.
fn concat(a: &str, b: &str) -> (s: String)
    ensures
        s@ == a@ + b@,
{
    let mut s = String::from_str(a);
    s.append(b);
    s
}

/// How a sweep value is written in a label: whole millions with `M`, whole
/// thousands with `k` (both rounded down), else the plain number.
pub open spec fn count_label(n: nat) -> Seq<char> {
    if n >= 1_000_000 {
        decimal_chars(n / 1_000_000) + seq!['M']
    } else if n >= 1_000 {
        decimal_chars(n / 1_000) + seq!['k']
    } else {
        decimal_chars(n)
    }
}

/// Writes an entity count for a label (see `count_label`).
pub fn fmt_n(n: usize) -> (s: String)
    ensures
        s@ == count_label(n as nat),
{
    if n >= 1_000_000 {
        let d = decimal(n / 1_000_000);
        let r = concat(d.as_str(), "M");
        proof {
            reveal_strlit("M");
        }
        r
    } else if n >= 1_000 {
        let d = decimal(n / 1_000);
        let r = concat(d.as_str(), "k");
        proof {
            reveal_strlit("k");
        }
        r
    } else {
        decimal(n)
    }
}

/// `a` and `b` are the same text.
pub fn same_text(a: &str, b: &str) -> (r: bool)
    ensures
        r == (a@ == b@),
{
    let n = a.unicode_len();
    if n != b.unicode_len() {
        return false;
    }
    let mut i: usize = 0;
    while i < n
        invariant
            n == a@.len(),
            n == b@.len(),
            0 <= i <= n,
            forall|k: int| 0 <= k < i ==> a@[k] == b@[k],
        decreases n - i,
    {
        if a.get_char(i) != b.get_char(i) {
            return false;
        }
        i = i + 1;
    }
    proof {
        assert(a@ =~= b@);
    }
    true
}

/// Whether a run of the fair suite with `filter` measures the case with id
/// `id` in group `group`: every case without a filter, else the cases whose
/// id or group is the filter.
pub fn fair_selected(filter: Option<&str>, id: &str, group: &str) -> (r: bool)
    ensures
        r == match filter {
            None => true,
            Some(f) => f@ == id@ || f@ == group@,
        },
{
    match filter {
        None => true,
        Some(f) => same_text(id, f) || same_text(group, f),
    }
}

/// The checksum of the first repetition of a case, and whether every
/// repetition gave the same one (0 and stable when there was none).
pub fn checksum_summary(checksums: &Vec<u64>) -> (r: (u64, bool))
    ensures
        checksums@.len() == 0 ==> r == (0u64, true),
        checksums@.len() > 0 ==> {
            &&& r.0 == checksums@[0]
            &&& r.1 == (forall|i: int| 0 <= i < checksums@.len() ==> #[trigger] checksums@[i] == checksums@[0])
        },
{
    let mut checksum: u64 = 0;
    let mut stable = true;
    let mut i: usize = 0;
    while i < checksums.len()
        invariant
            0 <= i <= checksums@.len(),
            i > 0 ==> checksum == checksums@[0],
            i == 0 ==> checksum == 0,
            stable == (forall|k: int| 0 <= k < i ==> #[trigger] checksums@[k] == checksums@[0]),
        decreases checksums@.len() - i,
    {
        if i == 0 {
            checksum = checksums[i];
        } else if checksums[i] != checksum {
            stable = false;
        }
        i = i + 1;
    }
    (checksum, stable)
}

/// One step of the xorshift generator that orders the random-access
/// workloads.
pub open spec fn xorshift(s: u64) -> u64 {
    let a = s ^ (s << 13u64);
    let b = a ^ (a >> 7u64);
    b ^ (b << 17u64)
}

/// The seed of that generator.
pub open spec fn shuffle_seed() -> u64 {
    0x2545_F491_4F6C_DD1Du64
}

/// `v` with the elements at `i` and `j` exchanged.
pub open spec fn swapped(v: Seq<usize>, i: int, j: int) -> Seq<usize> {
    v.update(i, v[j]).update(j, v[i])
}

/// The Fisher–Yates shuffle of `v` from position `i` down to 1, drawing
/// from the generator after state `s`.
pub open spec fn shuffle_down(v: Seq<usize>, s: u64, i: int) -> Seq<usize>
    decreases i,
{
    if i < 1 || i >= v.len() {
        v
    } else {
        let t = xorshift(s);
        let j = (t % ((i + 1) as u64)) as int;
        shuffle_down(swapped(v, i, j), t, i - 1)
    }
}

/// The numbers `0..n` in order.
pub open spec fn iota(n: nat) -> Seq<usize> {
    Seq::new(n, |i: int| i as usize)
}

/// `v` holds each of `0..v.len()` once.
pub open spec fn is_permutation(v: Seq<usize>) -> bool {
    &&& forall|i: int| 0 <= i < v.len() ==> #[trigger] v[i] < v.len()
    &&& forall|i: int, j: int| 0 <= i < j < v.len() ==> v[i] != v[j]
}

/// The indices `0..n` in the fixed pseudo-random order of the
/// random-access workloads.
pub fn shuffled_indices(n: usize) -> (v: Vec<usize>)
    ensures
        v@ == shuffle_down(iota(n as nat), shuffle_seed(), n - 1),
        v@.len() == n,
        is_permutation(v@),
{
    let mut v: Vec<usize> = Vec::new();
    let mut k: usize = 0;
    while k < n
        invariant
            0 <= k <= n,
            v@ == iota(k as nat),
        decreases n - k,
    {
        v.push(k);
        proof {
            assert(v@ =~= iota((k + 1) as nat));
        }
        k = k + 1;
    }
    let mut state: u64 = 0x2545_F491_4F6C_DD1Du64;
    if n == 0 {
        return v;
    }
    let mut i: usize = n - 1;
    proof {
        assert(is_permutation(v@));
    }
    while i >= 1
        invariant
            v@.len() == n,
            0 <= i < n,
            shuffle_down(v@, state, i as int) == shuffle_down(iota(n as nat), shuffle_seed(), n - 1),
            is_permutation(v@),
        decreases i,
    {
        state = state ^ (state << 13u64);
        state = state ^ (state >> 7u64);
        let ghost prev = state;
        state = state ^ (state << 17u64);
        let j = (state % (i as u64 + 1)) as usize;
        let ghost before = v@;
        let a = v[i];
        let b = v[j];
        v.set(i, b);
        v.set(j, a);
        proof {
            assert(v@ =~= swapped(before, i as int, j as int));
            assert forall|x: int| 0 <= x < v@.len() implies #[trigger] v@[x] < v@.len() by {
                if x == i {
                    assert(v@[x] == before[j as int]);
                } else if x == j {
                    assert(v@[x] == before[i as int]);
                } else {
                    assert(v@[x] == before[x]);
                }
            }
            assert forall|x: int, y: int| 0 <= x < y < v@.len() implies v@[x] != v@[y] by {
                let ox = if x == i { j as int } else if x == j { i as int } else { x };
                let oy = if y == i { j as int } else if y == j { i as int } else { y };
                assert(v@[x] == before[ox]);
                assert(v@[y] == before[oy]);
                assert(ox != oy);
            }
        }
        i = i - 1;
    }
    v
}

/// What a case of the fair suite measures and how it is labelled.
pub struct FairSpec {
    pub id: &'static str,
    pub group: &'static str,
    pub label: String,
    pub sweep_key: &'static str,
    pub sweep_value: u64,
    pub entity_count: usize,
    pub description: &'static str,
}

/// The workload of a case of the fair suite, with the size it sweeps.
#[derive(Clone, Copy, PartialEq, Eq, Structural, Debug)]
pub enum FairWorkload {
    IterWrite1(usize),
    IterReadWrite2(usize),
    IterReadWrite4(usize),
    IterReadWrite8(usize),
    IterRead2(usize),
    Topology(usize),
    SpawnEmpty,
    SpawnTwoComponents,
    Despawn,
    AddComponent,
    RemoveComponent,
    AddRemoveCycle,
    RandomGet,
    RandomWrite,
    ChangedSparse,
    ScheduleThreeSystems,
}

/// A case of the fair suite.
pub struct FairCase {
    pub spec: FairSpec,
    pub workload: FairWorkload,
}

/// The entity counts that the iteration cases sweep.
pub open spec fn entity_sweep() -> Seq<usize> {
    seq![1_000, 10_000, 100_000, 1_000_000]
}

/// The archetype counts that the topology cases sweep.
pub open spec fn topology_sweep() -> Seq<usize> {
    seq![1, 8, 64, 512]
}

/// The workload of the `k`-th iteration case at `n` entities.
pub open spec fn iteration_workload(k: int, n: usize) -> FairWorkload {
    if k == 0 {
        FairWorkload::IterWrite1(n)
    } else if k == 1 {
        FairWorkload::IterReadWrite2(n)
    } else if k == 2 {
        FairWorkload::IterReadWrite4(n)
    } else if k == 3 {
        FairWorkload::IterReadWrite8(n)
    } else {
        FairWorkload::IterRead2(n)
    }
}

/// The label text before the entity count of the `k`-th iteration case.
pub open spec fn iteration_prefix(k: int) -> Seq<char> {
    if k == 0 {
        "write 1 component - "@
    } else if k == 1 {
        "read 1 / write 1 - "@
    } else if k == 2 {
        "4 components - "@
    } else if k == 3 {
        "8 components - "@
    } else {
        "read-only 2 - "@
    }
}

/// The cases after the sweeps, in order: workload, entity count, id,
/// group, label and description.
pub open spec fn fixed_cases() -> Seq<(FairWorkload, usize, &'static str, &'static str, &'static str, &'static str)> {
    seq![
        (FairWorkload::SpawnEmpty, 200_000usize, "C1", "Lifecycle", "spawn empty - 200k", "identifier allocation with no component data"),
        (FairWorkload::SpawnTwoComponents, 200_000usize, "C2", "Lifecycle", "spawn 2 components - 200k", "allocation plus archetype placement and column writes"),
        (FairWorkload::Despawn, 200_000usize, "C3", "Lifecycle", "despawn - 200k", "removal, row backfill and identifier recycling"),
        (FairWorkload::AddComponent, 100_000usize, "D1", "Structural", "add component - 100k", "one archetype move per entity"),
        (FairWorkload::RemoveComponent, 100_000usize, "D2", "Structural", "remove component - 100k", "the reverse archetype move"),
        (FairWorkload::AddRemoveCycle, 20_000usize, "D3", "Structural", "add/remove cycle - 20k × 20", "repeated moves, exercising any archetype-transition cache"),
        (FairWorkload::RandomGet, 100_000usize, "E1", "Random access", "random get - 100k × 10", "component lookup by entity handle in shuffled order — the case archetype layouts are weakest at"),
        (FairWorkload::RandomWrite, 100_000usize, "E2", "Random access", "random write - 100k × 10", "the same lookup, mutating"),
        (FairWorkload::ChangedSparse, 200_000usize, "F1", "Change detection", "sparse changes - 200k", "1 % of rows mutated per pass, then queried by change filter"),
        (FairWorkload::ScheduleThreeSystems, 100_000usize, "G1", "Scheduling", "3 systems - 100k", "three registered systems over the same data through the engine's scheduler"),
    ]
}

/// The id of the `k`-th iteration case.
pub open spec fn iteration_id(k: int) -> &'static str {
    if k == 0 {
        "A1"
    } else if k == 1 {
        "A2"
    } else if k == 2 {
        "A3"
    } else if k == 3 {
        "A4"
    } else {
        "A5"
    }
}

/// The description of the `k`-th iteration case.
pub open spec fn iteration_description(k: int) -> &'static str {
    if k == 0 {
        "20 passes of read-modify-write over a single component column"
    } else if k == 1 {
        "20 passes of the canonical position/velocity loop"
    } else if k == 2 {
        "20 passes touching four component columns"
    } else if k == 3 {
        "20 passes touching eight component columns"
    } else {
        "20 read-only passes — isolates the cost change tracking adds to writes"
    }
}

/// The `i`-th case of the fair suite: five iteration cases for each swept
/// entity count, then one topology case for each swept archetype count,
/// then the fixed cases.
pub open spec fn fair_case_at(c: &FairCase, i: int) -> bool {
    if i < 20 {
        let n = entity_sweep()[i / 5];
        &&& c.workload == iteration_workload(i % 5, n)
        &&& c.spec.entity_count == n
        &&& c.spec.sweep_value == n
        &&& c.spec.label@ == iteration_prefix(i % 5) + count_label(n as nat)
        &&& c.spec.id == iteration_id(i % 5)
        &&& c.spec.group == "Iteration"
        &&& c.spec.sweep_key == "entities"
        &&& c.spec.description == iteration_description(i % 5)
    } else if i < 24 {
        let k = topology_sweep()[i - 20];
        &&& c.workload == FairWorkload::Topology(k)
        &&& c.spec.entity_count == 100_000
        &&& c.spec.sweep_value == k
        &&& c.spec.label@ == decimal_chars(k as nat) + " archetypes - 100k"@
        &&& c.spec.id == "B1"
        &&& c.spec.group == "Topology"
        &&& c.spec.sweep_key == "archetypes"
        &&& c.spec.description == "100k entities spread over k archetypes, then iterated"
    } else {
        let f = fixed_cases()[i - 24];
        &&& c.workload == f.0
        &&& c.spec.entity_count == f.1
        &&& c.spec.sweep_value == f.1
        &&& c.spec.id == f.2
        &&& c.spec.group == f.3
        &&& c.spec.label@ == f.4@
        &&& c.spec.description == f.5
        &&& c.spec.sweep_key == "entities"
    }
}

fn iteration_case(k: usize, n: usize) -> (c: FairCase)
    requires
        k < 5,
    ensures
        c.workload == iteration_workload(k as int, n),
        c.spec.entity_count == n,
        c.spec.sweep_value == n,
        c.spec.label@ == iteration_prefix(k as int) + count_label(n as nat),
        c.spec.id == iteration_id(k as int),
        c.spec.group == "Iteration",
        c.spec.sweep_key == "entities",
        c.spec.description == iteration_description(k as int),
{
    let num = fmt_n(n);
    if k == 0 {
        FairCase {
            spec: FairSpec {
                id: "A1",
                group: "Iteration",
                label: concat("write 1 component - ", num.as_str()),
                sweep_key: "entities",
                sweep_value: n as u64,
                entity_count: n,
                description: "20 passes of read-modify-write over a single component column",
            },
            workload: FairWorkload::IterWrite1(n),
        }
    } else if k == 1 {
        FairCase {
            spec: FairSpec {
                id: "A2",
                group: "Iteration",
                label: concat("read 1 / write 1 - ", num.as_str()),
                sweep_key: "entities",
                sweep_value: n as u64,
                entity_count: n,
                description: "20 passes of the canonical position/velocity loop",
            },
            workload: FairWorkload::IterReadWrite2(n),
        }
    } else if k == 2 {
        FairCase {
            spec: FairSpec {
                id: "A3",
                group: "Iteration",
                label: concat("4 components - ", num.as_str()),
                sweep_key: "entities",
                sweep_value: n as u64,
                entity_count: n,
                description: "20 passes touching four component columns",
            },
            workload: FairWorkload::IterReadWrite4(n),
        }
    } else if k == 3 {
        FairCase {
            spec: FairSpec {
                id: "A4",
                group: "Iteration",
                label: concat("8 components - ", num.as_str()),
                sweep_key: "entities",
                sweep_value: n as u64,
                entity_count: n,
                description: "20 passes touching eight component columns",
            },
            workload: FairWorkload::IterReadWrite8(n),
        }
    } else {
        FairCase {
            spec: FairSpec {
                id: "A5",
                group: "Iteration",
                label: concat("read-only 2 - ", num.as_str()),
                sweep_key: "entities",
                sweep_value: n as u64,
                entity_count: n,
                description: "20 read-only passes — isolates the cost change tracking adds to writes",
            },
            workload: FairWorkload::IterRead2(n),
        }
    }
}

fn fixed_case(
    id: &'static str,
    group: &'static str,
    label: &'static str,
    count: usize,
    description: &'static str,
    workload: FairWorkload,
) -> (c: FairCase)
    ensures
        c.workload == workload,
        c.spec.entity_count == count,
        c.spec.sweep_value == count,
        c.spec.label@ == label@,
        c.spec.id == id,
        c.spec.group == group,
        c.spec.sweep_key == "entities",
        c.spec.description == description,
{
    FairCase {
        spec: FairSpec {
            id,
            group,
            label: label.to_owned(),
            sweep_key: "entities",
            sweep_value: count as u64,
            entity_count: count,
            description,
        },
        workload,
    }
}

/// The cases of the fair suite, in order (see `fair_case_at`).
pub fn fair_cases() -> (v: Vec<FairCase>)
    ensures
        v@.len() == 34,
        forall|i: int| 0 <= i < 34 ==> fair_case_at(&#[trigger] v@[i], i),
{
    let mut out: Vec<FairCase> = Vec::new();
    let sweep: [usize; 4] = [1_000, 10_000, 100_000, 1_000_000];
    let mut t: usize = 0;
    while t < 4
        invariant
            0 <= t <= 4,
            sweep@ == entity_sweep(),
            out@.len() == 5 * t,
            forall|i: int| 0 <= i < out@.len() ==> fair_case_at(&#[trigger] out@[i], i),
        decreases 4 - t,
    {
        let n = sweep[t];
        let mut k: usize = 0;
        while k < 5
            invariant
                0 <= t < 4,
                0 <= k <= 5,
                n == entity_sweep()[t as int],
                out@.len() == 5 * t + k,
                forall|i: int| 0 <= i < out@.len() ==> fair_case_at(&#[trigger] out@[i], i),
            decreases 5 - k,
        {
            let c = iteration_case(k, n);
            let ghost before = out@;
            out.push(c);
            proof {
                let i = (5 * t + k) as int;
                assert(i / 5 == t as int);
                assert(i % 5 == k as int);
                assert(out@[i] == c);
                assert forall|x: int| 0 <= x < out@.len() implies fair_case_at(&#[trigger] out@[x], x) by {
                    if x < i {
                        assert(out@[x] == before[x]);
                    }
                }
            }
            k = k + 1;
        }
        t = t + 1;
    }
    let tops: [usize; 4] = [1, 8, 64, 512];
    let mut t2: usize = 0;
    while t2 < 4
        invariant
            0 <= t2 <= 4,
            tops@ == topology_sweep(),
            out@.len() == 20 + t2,
            forall|i: int| 0 <= i < out@.len() ==> fair_case_at(&#[trigger] out@[i], i),
        decreases 4 - t2,
    {
        let k = tops[t2];
        let digits = decimal(k);
        let c = FairCase {
            spec: FairSpec {
                id: "B1",
                group: "Topology",
                label: concat(digits.as_str(), " archetypes - 100k"),
                sweep_key: "archetypes",
                sweep_value: k as u64,
                entity_count: 100_000,
                description: "100k entities spread over k archetypes, then iterated",
            },
            workload: FairWorkload::Topology(k),
        };
        let ghost before = out@;
        out.push(c);
        proof {
            assert forall|x: int| 0 <= x < out@.len() implies fair_case_at(&#[trigger] out@[x], x) by {
                if x < before.len() {
                    assert(out@[x] == before[x]);
                }
            }
        }
        t2 = t2 + 1;
    }
    out.push(fixed_case("C1", "Lifecycle", "spawn empty - 200k", 200_000, "identifier allocation with no component data", FairWorkload::SpawnEmpty));
    out.push(fixed_case("C2", "Lifecycle", "spawn 2 components - 200k", 200_000, "allocation plus archetype placement and column writes", FairWorkload::SpawnTwoComponents));
    out.push(fixed_case("C3", "Lifecycle", "despawn - 200k", 200_000, "removal, row backfill and identifier recycling", FairWorkload::Despawn));
    out.push(fixed_case("D1", "Structural", "add component - 100k", 100_000, "one archetype move per entity", FairWorkload::AddComponent));
    out.push(fixed_case("D2", "Structural", "remove component - 100k", 100_000, "the reverse archetype move", FairWorkload::RemoveComponent));
    out.push(fixed_case("D3", "Structural", "add/remove cycle - 20k × 20", 20_000, "repeated moves, exercising any archetype-transition cache", FairWorkload::AddRemoveCycle));
    out.push(fixed_case("E1", "Random access", "random get - 100k × 10", 100_000, "component lookup by entity handle in shuffled order — the case archetype layouts are weakest at", FairWorkload::RandomGet));
    out.push(fixed_case("E2", "Random access", "random write - 100k × 10", 100_000, "the same lookup, mutating", FairWorkload::RandomWrite));
    out.push(fixed_case("F1", "Change detection", "sparse changes - 200k", 200_000, "1 % of rows mutated per pass, then queried by change filter", FairWorkload::ChangedSparse));
    out.push(fixed_case("G1", "Scheduling", "3 systems - 100k", 100_000, "three registered systems over the same data through the engine's scheduler", FairWorkload::ScheduleThreeSystems));
    out
}

} // verus!
