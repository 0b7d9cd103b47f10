use polling_places::agg::group_count;
use polling_places::parse::parse;
use polling_places::stats::{counts_sum, counts_sum_sq, mean_fraction, variance_fraction};
use polling_places::table::CellValue;

fn cv(s: &str) -> Vec<char> {
    s.chars().collect()
}

#[test]
fn group_counts_per_key() {
    let t = parse(&cv("region\tid\nA\t1\nB\t2\nA\t3\nA\t\nB\t5\n"), '\t').unwrap();
    let g = group_count(&t, &cv("region"), &cv("id"), &cv("n")).unwrap();
    assert_eq!(g.key_column, cv("region"));
    assert_eq!(g.count_column, cv("n"));
    // A appears three times, once with a null id: count 2.  B: count 2.
    assert_eq!(g.rows.len(), 2);
    let mut seen = std::collections::HashMap::new();
    for row in &g.rows {
        let key = match &row.key {
            CellValue::Text(s) => s.iter().collect::<String>(),
            other => panic!("unexpected key {:?}", other),
        };
        seen.insert(key, row.count);
    }
    assert_eq!(seen.get("A"), Some(&2));
    assert_eq!(seen.get("B"), Some(&2));
}

#[test]
fn group_sum_equals_present_count_cells() {
    let t = parse(&cv("k\tv\nx\t1\ny\t\nx\t2\nz\t3\nz\t\n"), '\t').unwrap();
    let g = group_count(&t, &cv("k"), &cv("v"), &cv("n")).unwrap();
    let total: u32 = g.rows.iter().map(|r| r.count).sum();
    assert_eq!(total, 3);
    assert_eq!(g.rows.len(), 3);
}

#[test]
fn null_key_forms_its_own_group() {
    let t = parse(&cv("k\tv\n\t1\nA\t2\n\t3\n"), '\t').unwrap();
    let g = group_count(&t, &cv("k"), &cv("v"), &cv("n")).unwrap();
    assert_eq!(g.rows.len(), 2);
    let null_group = g
        .rows
        .iter()
        .find(|r| matches!(r.key, CellValue::Null))
        .expect("null key group");
    assert_eq!(null_group.count, 2);
}

#[test]
fn empty_table_yields_zero_groups() {
    let t = parse(&cv("k\tv\n"), '\t').unwrap();
    let g = group_count(&t, &cv("k"), &cv("v"), &cv("n")).unwrap();
    assert!(g.rows.is_empty());
}

#[test]
fn group_missing_column_fails() {
    let t = parse(&cv("k\tv\nx\t1\n"), '\t').unwrap();
    let e = group_count(&t, &cv("nope"), &cv("v"), &cv("n")).unwrap_err();
    assert_eq!(e.column, cv("nope"));
}

#[test]
fn stats_on_empty_input_are_zero() {
    let empty: Vec<u32> = vec![];
    assert_eq!(mean_fraction(&empty), (0, 1));
    assert_eq!(variance_fraction(&empty), (0, 1));
    let mean = 0.0f64 / 1.0f64;
    let std = (0.0f64 / 1.0f64).sqrt();
    assert_eq!(mean, 0.0);
    assert_eq!(std, 0.0);
}

#[test]
fn stats_concrete_three_five_four() {
    let counts: Vec<u32> = vec![3, 5, 4];
    assert_eq!(counts_sum(&counts), 12);
    assert_eq!(counts_sum_sq(&counts), 50);
    let (mn, md) = mean_fraction(&counts);
    assert_eq!((mn, md), (12, 3));
    assert_eq!(mn as f64 / md as f64, 4.0);
    let (vn, vd) = variance_fraction(&counts);
    // 3*50 - 144 = 6 over 9: the mean squared deviation 2/3.
    assert_eq!((vn, vd), (6, 9));
    let std = (vn as f64 / vd as f64).sqrt();
    assert!((std - 0.8165).abs() < 1e-4);
}

#[test]
fn variance_of_constant_counts_is_zero() {
    let counts: Vec<u32> = vec![2, 2];
    let (vn, _vd) = variance_fraction(&counts);
    assert_eq!(vn, 0);
}
