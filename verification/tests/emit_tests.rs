use pair_counts::emit::count_run;
use pair_counts::emit::resolve_rows;
use pair_counts::engine::CompletionMode;
use pair_counts::engine::build_count_table;
use pair_counts::errors::CountError;
use pair_counts::hits::HitMapping;

fn names(list: &[&str]) -> Vec<String> {
    let mut out = Vec::new();
    for n in list {
        out.push(String::from(*n));
    }
    out
}

#[test]
fn rows_resolve_ids_to_names() {
    let mut a = HitMapping::new();
    a.insert(String::from("f1"), 0);
    let mut b = HitMapping::new();
    b.insert(String::from("f1"), 1);
    let t = build_count_table(&a, &b, 2, 2, CompletionMode::Paired).unwrap();
    let names_a = names(&["guideA0", "guideA1"]);
    let names_b = names(&["guideB0", "guideB1"]);
    let sample = String::from("sample1");
    let rows = resolve_rows(&sample, &t, &names_a, &names_b).unwrap();
    assert_eq!(t.len(), 3);
    assert_eq!(rows.len(), 3);
    for row in &rows {
        assert_eq!(row.0, "sample1");
    }
    assert!(rows.contains(&(
        String::from("sample1"),
        String::from("guideA0"),
        String::from("guideB1"),
        1
    )));
    assert!(rows.contains(&(
        String::from("sample1"),
        String::from("guideA0"),
        String::from("guideB0"),
        0
    )));
    assert!(rows.contains(&(
        String::from("sample1"),
        String::from("guideA1"),
        String::from("guideB1"),
        0
    )));
}

#[test]
fn count_run_produces_the_whole_output() {
    let mut a = HitMapping::new();
    a.insert(String::from("f1"), 0);
    let mut b = HitMapping::new();
    b.insert(String::from("f1"), 2);
    let names_a = names(&["a0", "a1", "a2"]);
    let names_b = names(&["b0", "b1", "b2"]);
    let sample = String::from("s");
    let rows = count_run(&sample, &a, &b, &names_a, &names_b, false).unwrap();
    assert_eq!(rows.len(), 9);
    let hit = (
        String::from("s"),
        String::from("a0"),
        String::from("b2"),
        1usize,
    );
    assert!(rows.contains(&hit));
    assert_eq!(rows.iter().filter(|r| r.3 == 0).count(), 8);
}

#[test]
fn count_run_rejects_mismatched_paired_panels() {
    let a = HitMapping::new();
    let b = HitMapping::new();
    let names_a = names(&["a0", "a1", "a2"]);
    let names_b = names(&["b0", "b1", "b2", "b3"]);
    let sample = String::from("s");
    let r = count_run(&sample, &a, &b, &names_a, &names_b, true);
    assert_eq!(r, Err(CountError::PanelSizeMismatch { len_a: 3, len_b: 4 }));
}

#[test]
fn rows_follow_table_order() {
    let a = HitMapping::new();
    let b = HitMapping::new();
    let t = build_count_table(&a, &b, 2, 2, CompletionMode::Matrix).unwrap();
    let names_a = names(&["a0", "a1"]);
    let names_b = names(&["b0", "b1"]);
    let sample = String::from("s");
    let rows = resolve_rows(&sample, &t, &names_a, &names_b).unwrap();
    // completion walks the grid row by row, and rows keep table order
    let mut expected = Vec::new();
    for x in 0..2 {
        for y in 0..2 {
            expected.push((
                String::from("s"),
                format!("a{}", x),
                format!("b{}", y),
                0usize,
            ));
        }
    }
    assert_eq!(rows, expected);
}

#[test]
fn out_of_panel_id_is_an_integrity_error() {
    let mut a = HitMapping::new();
    a.insert(String::from("f1"), 5);
    let mut b = HitMapping::new();
    b.insert(String::from("f1"), 0);
    // aggregation saw reference id 5, but panel A only names two references
    let t = build_count_table(&a, &b, 2, 1, CompletionMode::Matrix).unwrap();
    let names_a = names(&["a0", "a1"]);
    let names_b = names(&["b0"]);
    let sample = String::from("s");
    let r = resolve_rows(&sample, &t, &names_a, &names_b);
    assert_eq!(r, Err(CountError::ReferenceIdOutOfRange { a: 5, b: 0 }));
}

#[test]
fn dense_matrix_rows_cover_every_combination() {
    let mut a = HitMapping::new();
    a.insert(String::from("f1"), 0);
    let mut b = HitMapping::new();
    b.insert(String::from("f1"), 2);
    let t = build_count_table(&a, &b, 3, 3, CompletionMode::Matrix).unwrap();
    let names_a = names(&["a0", "a1", "a2"]);
    let names_b = names(&["b0", "b1", "b2"]);
    let sample = String::from("s");
    let rows = resolve_rows(&sample, &t, &names_a, &names_b).unwrap();
    assert_eq!(rows.len(), 9);
    let mut ones = 0;
    let mut zeros = 0;
    for row in &rows {
        if row.3 == 1 {
            assert_eq!(row.1, "a0");
            assert_eq!(row.2, "b2");
            ones += 1;
        } else {
            assert_eq!(row.3, 0);
            zeros += 1;
        }
    }
    assert_eq!(ones, 1);
    assert_eq!(zeros, 8);
}
