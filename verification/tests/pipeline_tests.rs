use plotters::prelude::{BitMapBackend, ChartBuilder, IntoDrawingArea, Rectangle, BLUE, WHITE};
use plotters::style::Color;
use polling_places::codec::encode_utf16le;
use polling_places::error::{ParseError, PipelineError};
use polling_places::pipeline::{analyze, PipelineConfig};
use polling_places::table::CellValue;

fn cv(s: &str) -> Vec<char> {
    s.chars().collect()
}

fn config() -> PipelineConfig {
    PipelineConfig {
        region_col: cv("region"),
        id_col: cv("pp_id"),
        name_col: cv("pp_name"),
        date_col: cv("election_dt"),
        out_col: cv("num_polling_places"),
    }
}

fn encode_text(s: &str) -> Vec<u8> {
    encode_utf16le(&cv(s))
}

#[test]
fn end_to_end_scenario() {
    let text = "region\tpp_id\tpp_name\telection_dt\n\
                A\t1\tAlpha\t01/01/2024\n\
                A\t2\tBeta\t01/01/2024\n\
                B\t\tGamma\t01/01/2024\n";
    let a = analyze(&encode_text(text), &config()).unwrap();
    // Region B's only row lost its required id, so B must not appear.
    assert_eq!(a.groups.rows.len(), 1);
    assert_eq!(a.groups.rows[0].key, CellValue::Text(cv("A")));
    assert_eq!(a.groups.rows[0].count, 2);
    assert_eq!(a.counts, vec![2]);
    let mean = a.mean_num as f64 / a.mean_den as f64;
    let std = (a.var_num as f64 / a.var_den as f64).sqrt();
    assert_eq!(mean, 2.0);
    assert_eq!(std, 0.0);
}

#[test]
fn empty_file_scenario() {
    // A header and no data rows: zero groups, statistics zero, and the
    // renderer draws an empty series without error.
    let a = analyze(&encode_text("region\tpp_id\tpp_name\telection_dt\n"), &config()).unwrap();
    assert!(a.groups.rows.is_empty());
    assert_eq!((a.mean_num, a.mean_den), (0, 1));
    assert_eq!((a.var_num, a.var_den), (0, 1));
    assert_eq!(a.mean_num as f64 / a.mean_den as f64, 0.0);
    assert_eq!((a.var_num as f64 / a.var_den as f64).sqrt(), 0.0);

    let mut buf = vec![0u8; 320 * 240 * 3];
    {
        let root = BitMapBackend::with_buffer(&mut buf, (320, 240)).into_drawing_area();
        root.fill(&WHITE).unwrap();
        let mut chart = ChartBuilder::on(&root)
            .build_cartesian_2d(0..1i32, 0..1i32)
            .unwrap();
        let bars = a.groups.rows.iter().enumerate().map(|(i, r)| {
            Rectangle::new([(i as i32, 0), (i as i32, r.count as i32)], BLUE.filled())
        });
        chart.draw_series(bars).unwrap();
        root.present().unwrap();
    }
}

#[test]
fn bom_is_stripped_before_decoding() {
    let mut bytes = vec![0xFFu8, 0xFE];
    bytes.extend(encode_text("region\tpp_id\tpp_name\telection_dt\nA\t1\tAlpha\t01/01/2024\n"));
    let a = analyze(&bytes, &config()).unwrap();
    assert_eq!(a.groups.rows.len(), 1);
    assert_eq!(a.groups.rows[0].count, 1);
}

#[test]
fn malformed_bytes_are_an_encoding_error() {
    let mut bytes = encode_text("region\tpp_id\tpp_name\telection_dt\n");
    bytes.push(0x41);
    match analyze(&bytes, &config()) {
        Err(PipelineError::Encoding(_)) => {},
        other => panic!("expected an encoding error, got {:?}", other.is_ok()),
    }
}

#[test]
fn empty_bytes_are_a_parse_error() {
    match analyze(&Vec::new(), &config()) {
        Err(PipelineError::Parse(e)) => assert_eq!(e, ParseError::EmptyInput),
        other => panic!("expected a parse error, got {:?}", other.is_ok()),
    }
}

#[test]
fn missing_configured_column_is_a_schema_error() {
    let bytes = encode_text("region\tother\n");
    match analyze(&bytes, &config()) {
        Err(PipelineError::Schema(e)) => assert_eq!(e.column, cv("pp_id")),
        other => panic!("expected a schema error, got {:?}", other.is_ok()),
    }
}

#[test]
fn unparseable_id_still_counts_its_region() {
    // A present but malformed id survives the null filter and is nulled by
    // the coercion, so its region appears with a count of zero... unless the
    // id column was inferred as text.  Here ids are mixed, so the column is
    // textual, the row survives, and the nulled id is not counted.
    let text = "region\tpp_id\tpp_name\telection_dt\n\
                A\t1\tAlpha\t01/01/2024\n\
                B\tx9\tBeta\t01/01/2024\n";
    let a = analyze(&encode_text(text), &config()).unwrap();
    assert_eq!(a.groups.rows.len(), 2);
    let mut by_key = std::collections::HashMap::new();
    for r in &a.groups.rows {
        let k = match &r.key {
            CellValue::Text(s) => s.iter().collect::<String>(),
            other => panic!("unexpected key {:?}", other),
        };
        by_key.insert(k, r.count);
    }
    assert_eq!(by_key.get("A"), Some(&1));
    assert_eq!(by_key.get("B"), Some(&0));
}
