use dedup::hashing::digest_bytes;
use dedup::order::str_lex_le;
use dedup::plan::{build_plan, sort_records, DedupPlan};
use dedup::record::FileRecord;

fn record(path: &str, size: u64, digest: &str) -> FileRecord {
    FileRecord { path: path.to_string(), size, digest: digest.to_string() }
}

fn plan_of(records: Vec<FileRecord>) -> DedupPlan {
    build_plan(records).expect("size-consistent records must yield a plan")
}

#[test]
fn digest_of_equal_content_is_equal() {
    let (n1, d1) = digest_bytes(b"hello");
    let (n2, d2) = digest_bytes(b"hello");
    assert_eq!(n1, 5);
    assert_eq!(n2, 5);
    assert_eq!(d1, d2);
}

#[test]
fn digest_of_different_content_differs() {
    let (_, d1) = digest_bytes(b"hello");
    let (_, d2) = digest_bytes(b"world");
    assert_ne!(d1, d2);
}

#[test]
fn digest_has_known_value_and_length() {
    let (n, d) = digest_bytes(b"hello");
    assert_eq!(n, 5);
    assert_eq!(d, "LPJNul+wow4m6DsqxbninhsWHlwfp0JecwQzYpOLmCQ=");
    assert_eq!(d.len(), 44);
}

#[test]
fn digest_of_empty_input() {
    let (n, d) = digest_bytes(b"");
    assert_eq!(n, 0);
    assert_eq!(d, "47DEQpj8HBSa+/TImW+5JCeuQeRkm5NMpJWZG3hSuFU=");
}

#[test]
fn scenario_three_duplicates_one_loner() {
    let (hn, hd) = digest_bytes(b"hello");
    let (_, wd) = digest_bytes(b"world");
    assert_eq!(hn, 5);
    let records = vec![
        record("a.txt", 5, &hd),
        record("b.txt", 5, &hd),
        record("c/d.txt", 5, &hd),
        record("e.txt", 5, &wd),
    ];
    let plan = plan_of(records);
    assert_eq!(plan.groups.len(), 1);
    let group = &plan.groups[0];
    assert_eq!(group.len(), 3);
    assert_eq!(group[0].path, "a.txt");
    assert_eq!(group[1].path, "b.txt");
    assert_eq!(group[2].path, "c/d.txt");
    assert_eq!(plan.total_reclaimable, 10);
    assert!(group.iter().all(|r| r.path != "e.txt"));
}

#[test]
fn scenario_empty_scan() {
    let plan = plan_of(vec![]);
    assert_eq!(plan.groups.len(), 0);
    assert_eq!(plan.total_reclaimable, 0);
}

#[test]
fn scenario_aggregation_order_does_not_matter() {
    let forward = vec![
        record("a.txt", 5, "h"),
        record("b.txt", 5, "h"),
        record("c/d.txt", 5, "h"),
        record("e.txt", 5, "w"),
    ];
    let backward = vec![
        record("e.txt", 5, "w"),
        record("c/d.txt", 5, "h"),
        record("b.txt", 5, "h"),
        record("a.txt", 5, "h"),
    ];
    let p1 = plan_of(forward);
    let p2 = plan_of(backward);
    assert_eq!(p1.total_reclaimable, p2.total_reclaimable);
    assert_eq!(p1.groups.len(), p2.groups.len());
    let paths1: Vec<Vec<String>> =
        p1.groups.iter().map(|g| g.iter().map(|r| r.path.clone()).collect()).collect();
    let paths2: Vec<Vec<String>> =
        p2.groups.iter().map(|g| g.iter().map(|r| r.path.clone()).collect()).collect();
    assert_eq!(paths1, paths2);
}

#[test]
fn scenario_interleaving_keeps_groups_and_total() {
    // Two workers would hand records over in some interleaved order; the
    // groups (as a set) and the total must not depend on it.
    let one_worker = vec![
        record("a", 5, "h"),
        record("b", 5, "h"),
        record("m", 3, "k"),
        record("n", 3, "k"),
        record("z", 9, "q"),
    ];
    let many_workers = vec![
        record("n", 3, "k"),
        record("z", 9, "q"),
        record("b", 5, "h"),
        record("m", 3, "k"),
        record("a", 5, "h"),
    ];
    let p1 = plan_of(one_worker);
    let p2 = plan_of(many_workers);
    assert_eq!(p1.total_reclaimable, 8);
    assert_eq!(p2.total_reclaimable, 8);
    let mut paths1: Vec<Vec<String>> =
        p1.groups.iter().map(|g| g.iter().map(|r| r.path.clone()).collect()).collect();
    let mut paths2: Vec<Vec<String>> =
        p2.groups.iter().map(|g| g.iter().map(|r| r.path.clone()).collect()).collect();
    paths1.sort();
    paths2.sort();
    assert_eq!(paths1, paths2);
}

#[test]
fn grouping_twice_yields_identical_plans() {
    let records = || {
        vec![
            record("x/1", 7, "d1"),
            record("x/2", 7, "d1"),
            record("y/1", 3, "d2"),
            record("y/2", 3, "d2"),
            record("z", 9, "d3"),
        ]
    };
    let p1 = plan_of(records());
    let p2 = plan_of(records());
    assert_eq!(p1.total_reclaimable, p2.total_reclaimable);
    let paths1: Vec<Vec<String>> =
        p1.groups.iter().map(|g| g.iter().map(|r| r.path.clone()).collect()).collect();
    let paths2: Vec<Vec<String>> =
        p2.groups.iter().map(|g| g.iter().map(|r| r.path.clone()).collect()).collect();
    assert_eq!(paths1, paths2);
}

#[test]
fn survivor_is_lexicographically_smallest() {
    let records = vec![
        record("zebra", 4, "d"),
        record("apple", 4, "d"),
        record("mango", 4, "d"),
    ];
    let plan = plan_of(records);
    assert_eq!(plan.groups.len(), 1);
    assert_eq!(plan.groups[0][0].path, "apple");
    assert_eq!(plan.groups[0][1].path, "mango");
    assert_eq!(plan.groups[0][2].path, "zebra");
    assert_eq!(plan.total_reclaimable, 8);
}

#[test]
fn singleton_groups_contribute_nothing() {
    let records = vec![
        record("one", 100, "alone"),
        record("two", 8, "pair"),
        record("three", 8, "pair"),
    ];
    let plan = plan_of(records);
    assert_eq!(plan.groups.len(), 1);
    assert_eq!(plan.total_reclaimable, 8);
}

#[test]
fn size_mismatch_in_a_group_is_an_integrity_error() {
    let records = vec![record("p", 5, "clash"), record("q", 6, "clash")];
    let err = build_plan(records).expect_err("digest shared across sizes must fail");
    assert_eq!(err.digest, "clash");
    assert!(err.size_a != err.size_b);
}

#[test]
fn total_saturates_instead_of_overflowing() {
    let records = vec![
        record("big/1", u64::MAX, "huge"),
        record("big/2", u64::MAX, "huge"),
        record("big/3", u64::MAX, "huge"),
    ];
    let plan = plan_of(records);
    assert_eq!(plan.total_reclaimable, u64::MAX);
}

#[test]
fn rerun_on_survivors_reclaims_nothing() {
    let records = vec![
        record("a", 5, "h"),
        record("b", 5, "h"),
        record("c", 5, "h"),
        record("d", 2, "w"),
    ];
    let plan = plan_of(records);
    let mut victims: Vec<String> = Vec::new();
    for group in &plan.groups {
        for r in &group[1..] {
            victims.push(r.path.clone());
        }
    }
    let survivors: Vec<FileRecord> = vec![
        record("a", 5, "h"),
        record("b", 5, "h"),
        record("c", 5, "h"),
        record("d", 2, "w"),
    ]
    .into_iter()
    .filter(|r| !victims.contains(&r.path))
    .collect();
    assert_eq!(survivors.len(), 2);
    let rerun = plan_of(survivors);
    assert_eq!(rerun.groups.len(), 0);
    assert_eq!(rerun.total_reclaimable, 0);
}

#[test]
fn sorting_orders_records_by_path() {
    let group = vec![record("b", 1, "d"), record("a", 1, "d"), record("a/b", 1, "d")];
    let sorted = sort_records(group);
    assert_eq!(sorted[0].path, "a");
    assert_eq!(sorted[1].path, "a/b");
    assert_eq!(sorted[2].path, "b");
}

#[test]
fn string_order_is_lexicographic() {
    let a = String::from("a.txt");
    let b = String::from("b.txt");
    let ab = String::from("a.txt.bak");
    assert!(str_lex_le(&a, &b));
    assert!(!str_lex_le(&b, &a));
    assert!(str_lex_le(&a, &a));
    assert!(str_lex_le(&a, &ab));
    assert!(!str_lex_le(&ab, &a));
}
