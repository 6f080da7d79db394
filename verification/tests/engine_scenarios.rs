use pair_counts::engine::CompletionMode;
use pair_counts::engine::aggregate;
use pair_counts::engine::build_count_table;
use pair_counts::engine::complete;
use pair_counts::errors::CountError;
use pair_counts::hits::HitMapping;
use pair_counts::table::CountTable;
use pair_counts::table::PairKey;

fn key(a: usize, b: usize) -> PairKey {
    PairKey { a, b }
}

#[test]
fn single_fragment_matrix_is_dense() {
    let mut a = HitMapping::new();
    a.insert(String::from("f1"), 0);
    let mut b = HitMapping::new();
    b.insert(String::from("f1"), 2);
    let t = build_count_table(&a, &b, 3, 3, CompletionMode::Matrix).unwrap();
    assert_eq!(t.len(), 9);
    for x in 0..3 {
        for y in 0..3 {
            let expected = if (x, y) == (0, 2) { 1 } else { 0 };
            assert_eq!(t.get(key(x, y)), Some(expected));
        }
    }
}

#[test]
fn unshared_fragment_contributes_nothing() {
    let mut a = HitMapping::new();
    a.insert(String::from("solo_a"), 1);
    let mut b = HitMapping::new();
    b.insert(String::from("solo_b"), 2);
    let t = aggregate(&a, &b);
    assert_eq!(t.len(), 0);
    assert_eq!(t.get(key(1, 2)), None);
}

#[test]
fn multi_hit_fragment_contributes_cross_join() {
    let mut a = HitMapping::new();
    a.insert(String::from("f"), 0);
    a.insert(String::from("f"), 1);
    let mut b = HitMapping::new();
    b.insert(String::from("f"), 0);
    b.insert(String::from("f"), 1);
    b.insert(String::from("f"), 2);
    let t = aggregate(&a, &b);
    assert_eq!(t.len(), 6);
    for x in 0..2 {
        for y in 0..3 {
            assert_eq!(t.get(key(x, y)), Some(1));
        }
    }
}

#[test]
fn paired_mode_size_mismatch_fails() {
    let mut a = HitMapping::new();
    a.insert(String::from("f1"), 0);
    let mut b = HitMapping::new();
    b.insert(String::from("f1"), 0);
    let r = build_count_table(&a, &b, 3, 4, CompletionMode::Paired);
    match r {
        Err(e) => assert_eq!(e, CountError::PanelSizeMismatch { len_a: 3, len_b: 4 }),
        Ok(_) => panic!("paired mode accepted mismatched panel sizes"),
    }
}

#[test]
fn paired_mode_fills_diagonal_and_keeps_off_diagonal() {
    let mut a = HitMapping::new();
    a.insert(String::from("f1"), 0);
    let mut b = HitMapping::new();
    b.insert(String::from("f1"), 2);
    let t = build_count_table(&a, &b, 3, 3, CompletionMode::Paired).unwrap();
    // the three diagonal keys, plus the observed off-diagonal (0, 2)
    assert_eq!(t.len(), 4);
    assert_eq!(t.get(key(0, 0)), Some(0));
    assert_eq!(t.get(key(1, 1)), Some(0));
    assert_eq!(t.get(key(2, 2)), Some(0));
    assert_eq!(t.get(key(0, 2)), Some(1));
    assert_eq!(t.get(key(2, 0)), None);
}

#[test]
fn repeated_hits_are_deduplicated() {
    let mut a = HitMapping::new();
    a.insert(String::from("f"), 0);
    a.insert(String::from("f"), 0);
    let mut b = HitMapping::new();
    b.insert(String::from("f"), 1);
    let t = aggregate(&a, &b);
    assert_eq!(t.len(), 1);
    assert_eq!(t.get(key(0, 1)), Some(1));
}

#[test]
fn counts_add_up_over_fragments() {
    let mut a = HitMapping::new();
    a.insert(String::from("f1"), 0);
    a.insert(String::from("f2"), 0);
    a.insert(String::from("f3"), 0);
    let mut b = HitMapping::new();
    b.insert(String::from("f1"), 1);
    b.insert(String::from("f2"), 1);
    b.insert(String::from("f3"), 2);
    let t = aggregate(&a, &b);
    assert_eq!(t.len(), 2);
    assert_eq!(t.get(key(0, 1)), Some(2));
    assert_eq!(t.get(key(0, 2)), Some(1));
}

fn table_snapshot(t: &CountTable) -> Vec<(usize, usize, usize)> {
    let mut out = Vec::new();
    let mut i = 0;
    while i < t.len() {
        let (k, c) = t.entry_at(i);
        out.push((k.a, k.b, c));
        i += 1;
    }
    out
}

#[test]
fn completion_is_additive_only() {
    let mut a = HitMapping::new();
    a.insert(String::from("f1"), 1);
    let mut b = HitMapping::new();
    b.insert(String::from("f1"), 2);
    let mut t = aggregate(&a, &b);
    let raw = table_snapshot(&t);
    complete(&mut t, CompletionMode::Matrix, 3, 3).unwrap();
    // every raw entry survives completion unchanged
    for (x, y, c) in raw {
        assert_eq!(t.get(key(x, y)), Some(c));
    }
    assert_eq!(t.len(), 9);
}

#[test]
fn completion_is_idempotent() {
    let mut a = HitMapping::new();
    a.insert(String::from("f1"), 0);
    let mut b = HitMapping::new();
    b.insert(String::from("f1"), 1);
    let mut t = aggregate(&a, &b);
    complete(&mut t, CompletionMode::Matrix, 2, 2).unwrap();
    let once = table_snapshot(&t);
    complete(&mut t, CompletionMode::Matrix, 2, 2).unwrap();
    let twice = table_snapshot(&t);
    assert_eq!(once, twice);

    let mut u = aggregate(&a, &b);
    complete(&mut u, CompletionMode::Paired, 2, 2).unwrap();
    let once_paired = table_snapshot(&u);
    complete(&mut u, CompletionMode::Paired, 2, 2).unwrap();
    assert_eq!(once_paired, table_snapshot(&u));
}

#[test]
fn failed_paired_completion_leaves_table_untouched() {
    let mut a = HitMapping::new();
    a.insert(String::from("f1"), 0);
    let mut b = HitMapping::new();
    b.insert(String::from("f1"), 1);
    let mut t = aggregate(&a, &b);
    let before = table_snapshot(&t);
    let r = complete(&mut t, CompletionMode::Paired, 2, 3);
    assert_eq!(r, Err(CountError::PanelSizeMismatch { len_a: 2, len_b: 3 }));
    assert_eq!(table_snapshot(&t), before);
}

#[test]
fn empty_mappings_yield_all_zero_matrix() {
    let a = HitMapping::new();
    let b = HitMapping::new();
    let t = build_count_table(&a, &b, 2, 3, CompletionMode::Matrix).unwrap();
    assert_eq!(t.len(), 6);
    for x in 0..2 {
        for y in 0..3 {
            assert_eq!(t.get(key(x, y)), Some(0));
        }
    }
}

#[test]
fn empty_panels_yield_empty_table() {
    let a = HitMapping::new();
    let b = HitMapping::new();
    let t = build_count_table(&a, &b, 0, 0, CompletionMode::Matrix).unwrap();
    assert_eq!(t.len(), 0);
}
