use polling_places::error::ParseError;
use polling_places::parse::{parse, split_chars, split_lines};
use polling_places::table::{CellValue, ColumnType, Date};

fn cv(s: &str) -> Vec<char> {
    s.chars().collect()
}

#[test]
fn split_fields_on_tab() {
    let parts = split_chars(&cv("a\tb\t\tc"), '\t');
    let expect: Vec<Vec<char>> = vec![cv("a"), cv("b"), cv(""), cv("c")];
    assert_eq!(parts, expect);
}

#[test]
fn lines_drop_final_newline_and_cr() {
    let lines = split_lines(&cv("a\r\nb\nlast\n"));
    let expect: Vec<Vec<char>> = vec![cv("a"), cv("b"), cv("last")];
    assert_eq!(lines, expect);
}

#[test]
fn parse_empty_input_fails() {
    assert_eq!(parse(&cv(""), '\t').unwrap_err(), ParseError::EmptyInput);
}

#[test]
fn parse_ragged_row_fails() {
    let r = parse(&cv("a\tb\n1\t2\t3\n"), '\t');
    assert_eq!(r.unwrap_err(), ParseError::RaggedRow);
}

#[test]
fn parse_duplicate_column_fails() {
    let r = parse(&cv("a\tb\ta\n1\t2\t3\n"), '\t');
    assert_eq!(r.unwrap_err(), ParseError::DuplicateColumn);
}

#[test]
fn parse_header_only_gives_zero_rows_with_schema() {
    let t = parse(&cv("region\tpp_id\n"), '\t').unwrap();
    assert_eq!(t.columns.len(), 2);
    assert_eq!(t.num_rows(), 0);
    assert_eq!(t.columns[0].name, cv("region"));
    assert_eq!(t.columns[1].name, cv("pp_id"));
    assert_eq!(t.columns[0].ctype, ColumnType::Text);
}

#[test]
fn parse_infers_int_column_with_nulls() {
    let t = parse(&cv("id\n1\n\n-42\n"), '\t').unwrap();
    assert_eq!(t.columns[0].ctype, ColumnType::Int);
    assert_eq!(
        t.columns[0].cells,
        vec![CellValue::Int(1), CellValue::Null, CellValue::Int(-42)]
    );
}

#[test]
fn parse_infers_date_column() {
    let t = parse(&cv("dt\n01/01/2024\n12/31/1999\n"), '\t').unwrap();
    assert_eq!(t.columns[0].ctype, ColumnType::Date);
    assert_eq!(
        t.columns[0].cells,
        vec![
            CellValue::Date(Date { year: 2024, month: 1, day: 1 }),
            CellValue::Date(Date { year: 1999, month: 12, day: 31 }),
        ]
    );
}

#[test]
fn parse_mixed_column_stays_text() {
    let t = parse(&cv("v\n1\nx\n"), '\t').unwrap();
    assert_eq!(t.columns[0].ctype, ColumnType::Text);
    assert_eq!(t.columns[0].cells, vec![CellValue::Text(cv("1")), CellValue::Text(cv("x"))]);
}

#[test]
fn parse_all_null_column_stays_text() {
    let t = parse(&cv("v\tw\n\t1\n\t2\n"), '\t').unwrap();
    assert_eq!(t.columns[0].ctype, ColumnType::Text);
    assert_eq!(t.columns[0].cells, vec![CellValue::Null, CellValue::Null]);
    assert_eq!(t.columns[1].ctype, ColumnType::Int);
}

#[test]
fn parse_int_overflow_is_not_int() {
    // 2^31 does not fit an i32, so the column stays textual.
    let t = parse(&cv("v\n2147483648\n"), '\t').unwrap();
    assert_eq!(t.columns[0].ctype, ColumnType::Text);
    let t2 = parse(&cv("v\n2147483647\n-2147483648\n"), '\t').unwrap();
    assert_eq!(t2.columns[0].ctype, ColumnType::Int);
    assert_eq!(
        t2.columns[0].cells,
        vec![CellValue::Int(i32::MAX), CellValue::Int(i32::MIN)]
    );
}
