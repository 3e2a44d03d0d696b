use artisan::bench::{core_cases, manifest, select_case, suite_cases, Group, SubQuestion};
use artisan::fair::{checksum_summary, fair_cases, fair_selected, fmt_n, same_text, shuffled_indices, FairWorkload};

#[test]
fn core_suite_has_eleven_cases_in_id_order() {
    let cases = core_cases();
    assert_eq!(cases.len(), 11);
    for (i, c) in cases.iter().enumerate() {
        assert_eq!(c.spec.id as usize, i + 1);
        assert_eq!(c.spec.group, Group::Core);
    }
    assert_eq!(cases[0].spec.name, "1. Entity Spawn");
    assert_eq!(cases[6].spec.entity_count, 100_255);
    assert_eq!(cases[7].spec.subquestion, SubQuestion::NativeComparison);
    assert_eq!(cases[8].spec.subquestion, SubQuestion::EcsProperties);
}

#[test]
fn manifest_lists_the_core_specs() {
    let m = manifest();
    assert_eq!(m.len(), 11);
    assert_eq!(m[10].name, "11. Bulk Structural Churn");
    assert_eq!(m[2].inner_iters, 100);
}

#[test]
fn select_case_finds_by_id() {
    assert_eq!(select_case(4).map(|c| c.spec.id), Some(4));
    assert!(select_case(0).is_none());
    assert!(select_case(12).is_none());
}

#[test]
fn suite_selection_filters_by_ids() {
    let all = suite_cases(&vec![]);
    assert_eq!(all.len(), 11);
    let some = suite_cases(&vec![9, 2, 42]);
    let ids: Vec<u32> = some.iter().map(|c| c.spec.id).collect();
    assert_eq!(ids, vec![2, 9]);
}

#[test]
fn entity_counts_are_written_short() {
    assert_eq!(fmt_n(1_000_000), "1M");
    assert_eq!(fmt_n(2_500_000), "2M");
    assert_eq!(fmt_n(10_000), "10k");
    assert_eq!(fmt_n(1_000), "1k");
    assert_eq!(fmt_n(999), "999");
    assert_eq!(fmt_n(0), "0");
}

#[test]
fn fair_suite_has_thirty_four_cases() {
    let cases = fair_cases();
    assert_eq!(cases.len(), 34);
    assert_eq!(cases[0].spec.label, "write 1 component - 1k");
    assert_eq!(cases[0].spec.id, "A1");
    assert_eq!(cases[19].spec.label, "read-only 2 - 1M");
    assert_eq!(cases[19].workload, FairWorkload::IterRead2(1_000_000));
    assert_eq!(cases[21].spec.label, "8 archetypes - 100k");
    assert_eq!(cases[21].workload, FairWorkload::Topology(8));
    assert_eq!(cases[24].spec.label, "spawn empty - 200k");
    assert_eq!(cases[33].spec.id, "G1");
    assert_eq!(cases[33].workload, FairWorkload::ScheduleThreeSystems);
}

#[test]
fn fair_filter_matches_id_or_group() {
    assert!(fair_selected(None, "A1", "Iteration"));
    assert!(fair_selected(Some("A1"), "A1", "Iteration"));
    assert!(fair_selected(Some("Iteration"), "A2", "Iteration"));
    assert!(!fair_selected(Some("B1"), "A2", "Iteration"));
    assert!(same_text("Lifecycle", "Lifecycle"));
    assert!(!same_text("Lifecycle", "Lifecycl"));
}

#[test]
fn checksum_stability() {
    assert_eq!(checksum_summary(&vec![]), (0, true));
    assert_eq!(checksum_summary(&vec![7, 7, 7]), (7, true));
    assert_eq!(checksum_summary(&vec![7, 8, 7]), (7, false));
}

#[test]
fn shuffled_indices_is_a_fixed_permutation() {
    let v = shuffled_indices(100);
    let mut sorted = v.clone();
    sorted.sort();
    assert_eq!(sorted, (0..100).collect::<Vec<usize>>());
    assert_eq!(v, shuffled_indices(100));
    assert_ne!(v, (0..100).collect::<Vec<usize>>());
    assert_eq!(shuffled_indices(0), Vec::<usize>::new());
    assert_eq!(shuffled_indices(1), vec![0]);
}

#[test]
fn shuffle_matches_the_xorshift_order() {
    // the same walk written directly
    let n = 10usize;
    let mut expect: Vec<usize> = (0..n).collect();
    let mut state = 0x2545_F491_4F6C_DD1Du64;
    for i in (1..n).rev() {
        state ^= state << 13;
        state ^= state >> 7;
        state ^= state << 17;
        let j = (state % (i as u64 + 1)) as usize;
        expect.swap(i, j);
    }
    assert_eq!(shuffled_indices(n), expect);
}

#[test]
fn plain_counts_keep_every_digit() {
    assert_eq!(fmt_n(10), "10");
    assert_eq!(fmt_n(907), "907");
    assert_eq!(fmt_n(1_234_567_890), "1234M");
    assert_eq!(fmt_n(100_500), "100k");
}
