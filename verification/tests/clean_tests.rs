use polling_places::clean::{Coercion, clean};
use polling_places::coerce::{parse_date, parse_i32};
use polling_places::parse::parse;
use polling_places::table::{CellValue, ColumnType, Date};

fn cv(s: &str) -> Vec<char> {
    s.chars().collect()
}

#[test]
fn clean_drops_rows_with_null_required_values() {
    let t = parse(&cv("region\tid\nA\t1\nB\t\nC\t3\n"), '\t').unwrap();
    let out = clean(&t, &vec![cv("id")], &vec![]).unwrap();
    assert_eq!(out.num_rows(), 2);
    assert_eq!(out.columns[0].cells, vec![CellValue::Text(cv("A")), CellValue::Text(cv("C"))]);
    assert_eq!(out.columns[1].cells, vec![CellValue::Int(1), CellValue::Int(3)]);
}

#[test]
fn clean_missing_required_column_fails() {
    let t = parse(&cv("region\tid\nA\t1\n"), '\t').unwrap();
    let e = clean(&t, &vec![cv("absent")], &vec![]).unwrap_err();
    assert_eq!(e.column, cv("absent"));
}

#[test]
fn clean_missing_coercion_column_fails() {
    let t = parse(&cv("region\tid\nA\t1\n"), '\t').unwrap();
    let e = clean(
        &t,
        &vec![cv("id")],
        &vec![Coercion { column: cv("nope"), target: ColumnType::Int }],
    )
    .unwrap_err();
    assert_eq!(e.column, cv("nope"));
}

#[test]
fn coercion_failure_becomes_null_and_keeps_row() {
    // The id column is textual (mixed); coercing it to Int nulls the bad
    // value but drops no row.
    let t = parse(&cv("region\tid\nA\t7\nB\tabc\n"), '\t').unwrap();
    assert_eq!(t.columns[1].ctype, ColumnType::Text);
    let out = clean(
        &t,
        &vec![],
        &vec![Coercion { column: cv("id"), target: ColumnType::Int }],
    )
    .unwrap();
    assert_eq!(out.num_rows(), 2);
    assert_eq!(out.columns[1].ctype, ColumnType::Int);
    assert_eq!(out.columns[1].cells, vec![CellValue::Int(7), CellValue::Null]);
}

#[test]
fn date_coercion_requires_exact_pattern_and_real_date() {
    let t = parse(&cv("dt\n01/15/2024\n1/15/2024\n02/30/2024\nx\n"), '\t').unwrap();
    assert_eq!(t.columns[0].ctype, ColumnType::Text);
    let out = clean(
        &t,
        &vec![],
        &vec![Coercion { column: cv("dt"), target: ColumnType::Date }],
    )
    .unwrap();
    assert_eq!(
        out.columns[0].cells,
        vec![
            CellValue::Date(Date { year: 2024, month: 1, day: 15 }),
            CellValue::Null,
            CellValue::Null,
            CellValue::Null,
        ]
    );
}

#[test]
fn leap_year_rules() {
    assert_eq!(parse_date(&cv("02/29/2024")), Some(Date { year: 2024, month: 2, day: 29 }));
    assert_eq!(parse_date(&cv("02/29/2023")), None);
    assert_eq!(parse_date(&cv("02/29/1900")), None);
    assert_eq!(parse_date(&cv("02/29/2000")), Some(Date { year: 2000, month: 2, day: 29 }));
}

#[test]
fn parse_i32_edges() {
    assert_eq!(parse_i32(&cv("0")), Some(0));
    assert_eq!(parse_i32(&cv("-0")), Some(0));
    assert_eq!(parse_i32(&cv("007")), Some(7));
    assert_eq!(parse_i32(&cv("2147483647")), Some(i32::MAX));
    assert_eq!(parse_i32(&cv("2147483648")), None);
    assert_eq!(parse_i32(&cv("-2147483648")), Some(i32::MIN));
    assert_eq!(parse_i32(&cv("-2147483649")), None);
    assert_eq!(parse_i32(&cv("")), None);
    assert_eq!(parse_i32(&cv("-")), None);
    assert_eq!(parse_i32(&cv("1 2")), None);
    assert_eq!(parse_i32(&cv("99999999999999999999")), None);
}
