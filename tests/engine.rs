use epiclock::decimal::parse_decimal;
use epiclock::model::{adjust, Adjustment, Age, Model, ACC_SCALE};
use epiclock::score::{read_readings, score, score_readings, Reading, ScoreError};
use epiclock::table::{CoefTable, LoadError};

const TABLE: &[u8] = b"intercept,2.0\nprobeA,3.0\n";

fn years(age: Age) -> f64 {
    match age {
        Age::Exact(v) => v as f64 / ACC_SCALE as f64,
        Age::ExpOf(x) => 21.0 * (x as f64 / ACC_SCALE as f64).exp() - 1.0,
    }
}

#[test]
fn decimal_plain_values() {
    assert_eq!(parse_decimal("1.5"), Some(1_500_000_000));
    assert_eq!(parse_decimal("-0.1"), Some(-100_000_000));
    assert_eq!(parse_decimal("+2"), Some(2_000_000_000));
    assert_eq!(parse_decimal(".5"), Some(500_000_000));
    assert_eq!(parse_decimal("5."), Some(5_000_000_000));
    assert_eq!(parse_decimal("0.000000001"), Some(1));
    assert_eq!(parse_decimal("0.1234567899"), Some(123_456_789));
    assert_eq!(parse_decimal("999999999.999999999"), Some(999_999_999_999_999_999));
}

#[test]
fn decimal_rejects_other_text() {
    assert_eq!(parse_decimal(""), None);
    assert_eq!(parse_decimal("."), None);
    assert_eq!(parse_decimal("-"), None);
    assert_eq!(parse_decimal("abc"), None);
    assert_eq!(parse_decimal("1.2.3"), None);
    assert_eq!(parse_decimal(" 1.5"), None);
    assert_eq!(parse_decimal("1000000000"), None);
}

#[test]
fn decimal_scientific_notation() {
    assert_eq!(parse_decimal("1e-3"), Some(1_000_000));
    assert_eq!(parse_decimal("1e5"), Some(100_000_000_000_000));
    assert_eq!(parse_decimal("2.5E+2"), Some(250_000_000_000));
    assert_eq!(parse_decimal("-1.5e-9"), Some(-1));
    assert_eq!(parse_decimal("1e-10"), Some(0));
    assert_eq!(parse_decimal("123456789012e-3"), Some(123_456_789_012_000_000));
    assert_eq!(parse_decimal(".5e1"), Some(5_000_000_000));
    assert_eq!(parse_decimal("1e-99999999999999999999999"), Some(0));
    assert_eq!(parse_decimal("0e99999999999999999999999"), Some(0));
    assert_eq!(parse_decimal("1e99999999999999999999999"), None);
    assert_eq!(parse_decimal("1e9"), None);
    assert_eq!(parse_decimal("1e"), None);
    assert_eq!(parse_decimal("1e+"), None);
    assert_eq!(parse_decimal("e5"), None);
    assert_eq!(parse_decimal("1e5.0"), None);
}

#[test]
fn scientific_weights_and_values() {
    let m = Model::pheno(b"intercept,1e0
w,1e-3
").unwrap();
    assert_eq!(m.weight(&"w".to_string()), 1_000_000);
    let ages = score(&vec![m], b"w,2E3
").unwrap();
    assert_eq!(ages, vec![Age::Exact(3 * ACC_SCALE)]);
}

#[test]
fn load_reads_rows() {
    let t = CoefTable::load(TABLE).unwrap();
    assert_eq!(t.get(&"intercept".to_string()), Some(2_000_000_000));
    assert_eq!(t.get(&"probeA".to_string()), Some(3_000_000_000));
    assert_eq!(t.get(&"probeB".to_string()), None);
}

#[test]
fn load_handles_quoted_fields() {
    let t = CoefTable::load(b"\"a,b\",1.25\nintercept,0\n").unwrap();
    assert_eq!(t.get(&"a,b".to_string()), Some(1_250_000_000));
    assert_eq!(t.get(&"a".to_string()), None);
}

#[test]
fn load_rejects_duplicate_identifier() {
    let r = CoefTable::load(b"intercept,1\nprobeA,2\nprobeA,3\n");
    assert_eq!(r.err(), Some(LoadError::DuplicateKey));
}

#[test]
fn load_rejects_bad_weight() {
    let r = CoefTable::load(b"intercept,1\nprobeA,heavy\n");
    assert_eq!(r.err(), Some(LoadError::Parse));
}

#[test]
fn load_rejects_wrong_field_count() {
    assert_eq!(CoefTable::load(b"intercept,1,2\n").err(), Some(LoadError::Parse));
    assert_eq!(CoefTable::load(b"intercept\n").err(), Some(LoadError::Parse));
}

#[test]
fn load_is_deterministic() {
    let a = CoefTable::load(TABLE).unwrap();
    let b = CoefTable::load(TABLE).unwrap();
    for key in ["intercept", "probeA", "probeB"] {
        assert_eq!(a.get(&key.to_string()), b.get(&key.to_string()));
    }
}

#[test]
fn model_accessors() {
    let m = Model::pheno(TABLE).unwrap();
    assert_eq!(m.name, "DNAm PhenoAge");
    assert_eq!(m.intercept(), Some(2_000_000_000));
    assert_eq!(m.weight(&"probeA".to_string()), 3_000_000_000);
    assert_eq!(m.weight(&"nowhere".to_string()), 0);
    let h = Model::horvath(TABLE).unwrap();
    assert_eq!(h.name, "Horvath Clock");
    assert_eq!(h.adjustment(0), Age::Exact(21 * ACC_SCALE));
}

#[test]
fn all_models_in_order() {
    let ms = Model::all(TABLE, b"intercept,60.5\n").unwrap();
    assert_eq!(ms.len(), 2);
    assert_eq!(ms[0].name, "Horvath Clock");
    assert_eq!(ms[1].name, "DNAm PhenoAge");
    assert_eq!(ms[1].intercept(), Some(60_500_000_000));
    assert_eq!(Model::all(b"x,1\nx,2\n", TABLE).err(), Some(LoadError::DuplicateKey));
}

#[test]
fn horvath_adjustment_branches() {
    assert_eq!(adjust(Adjustment::Horvath, 0), Age::Exact(21 * ACC_SCALE));
    assert_eq!(adjust(Adjustment::Horvath, ACC_SCALE), Age::Exact(42 * ACC_SCALE));
    assert_eq!(adjust(Adjustment::Horvath, -1), Age::ExpOf(-1));
    assert!((years(adjust(Adjustment::Horvath, -1)) - 20.0).abs() < 1e-9);
    assert_eq!(years(adjust(Adjustment::Horvath, 0)), 21.0);
}

#[test]
fn identity_adjustment() {
    for x in [-5 * ACC_SCALE, 0, 7, ACC_SCALE] {
        assert_eq!(adjust(Adjustment::Identity, x), Age::Exact(x));
    }
}

#[test]
fn empty_stream_gives_adjusted_intercept() {
    let ms = vec![Model::horvath(TABLE).unwrap(), Model::pheno(TABLE).unwrap()];
    let ages = score(&ms, b"").unwrap();
    assert_eq!(ages, vec![Age::Exact(63 * ACC_SCALE), Age::Exact(2 * ACC_SCALE)]);
}

#[test]
fn pheno_scenario() {
    let ms = vec![Model::pheno(TABLE).unwrap()];
    let ages = score(&ms, b"probeA,1.5\n").unwrap();
    assert_eq!(ages, vec![Age::Exact(6_500_000_000_000_000_000)]);
    assert_eq!(format!("{:.2}", years(ages[0])), "6.50");
}

#[test]
fn horvath_scenario() {
    let ms = vec![Model::horvath(TABLE).unwrap()];
    let ages = score(&ms, b"probeA,-0.7\n").unwrap();
    assert_eq!(ages, vec![Age::ExpOf(-100_000_000_000_000_000)]);
    assert!((years(ages[0]) - 18.0016).abs() < 1e-3);
    assert!((years(ages[0]) - (21.0 * (-0.1f64).exp() - 1.0)).abs() < 1e-9);
}

#[test]
fn unknown_probe_is_isolated_per_model() {
    let a = Model::pheno(b"intercept,1\nprobeA,2\n").unwrap();
    let b = Model::pheno(b"intercept,1\nprobeB,5\n").unwrap();
    let ages = score(&vec![a, b], b"probeA,1\n").unwrap();
    assert_eq!(ages, vec![Age::Exact(3 * ACC_SCALE), Age::Exact(ACC_SCALE)]);
}

#[test]
fn repeated_probe_counts_each_time() {
    let ms = vec![Model::pheno(TABLE).unwrap()];
    let ages = score(&ms, b"probeA,1\nprobeA,1\n").unwrap();
    assert_eq!(ages, vec![Age::Exact(8 * ACC_SCALE)]);
}

#[test]
fn empty_or_bad_value_contributes_nothing() {
    let ms = vec![Model::pheno(TABLE).unwrap(), Model::horvath(TABLE).unwrap()];
    let ages = score(&ms, b"probeA,\nprobeA,n/a\n").unwrap();
    assert_eq!(ages, vec![Age::Exact(2 * ACC_SCALE), Age::Exact(63 * ACC_SCALE)]);
}

#[test]
fn extra_columns_are_ignored() {
    let ms = vec![Model::pheno(TABLE).unwrap()];
    let ages = score(&ms, b"probeA,1.5,9,9\n").unwrap();
    assert_eq!(ages, vec![Age::Exact(6_500_000_000_000_000_000)]);
}

#[test]
fn short_row_aborts() {
    let ms = vec![Model::pheno(TABLE).unwrap()];
    assert_eq!(score(&ms, b"probeA,1\nprobeA\n"), Err(ScoreError::MalformedRow));
    assert_eq!(read_readings(b"probeA\n").err(), Some(ScoreError::MalformedRow));
}

#[test]
fn missing_intercept_fails() {
    let ms = vec![Model::pheno(TABLE).unwrap(), Model::pheno(b"probeA,1\n").unwrap()];
    assert_eq!(score(&ms, b"probeA,1\n"), Err(ScoreError::MissingIntercept));
    assert_eq!(score(&ms, b"probeA\n"), Err(ScoreError::MissingIntercept));
}

#[test]
fn running_sum_overflow_fails() {
    let ms = vec![Model::pheno(b"intercept,0\np,999999999.999999999\n").unwrap()];
    let input = b"p,999999999.999999999\np,999999999.999999999\n";
    assert_eq!(score(&ms, input), Err(ScoreError::Overflow));
}

#[test]
fn readings_then_scoring() {
    let rs = read_readings(b"probeA,1.5\nprobeZ,\n").unwrap();
    assert_eq!(rs.len(), 2);
    assert_eq!(rs[0].probe, "probeA");
    assert_eq!(rs[0].value, Some(1_500_000_000));
    assert_eq!(rs[1].value, None);
    let moved = vec![Reading { probe: "probeA".to_string(), value: Some(500_000_000) }];
    let ms = vec![Model::pheno(TABLE).unwrap()];
    assert_eq!(score_readings(&ms, &moved), Ok(vec![Age::Exact(3_500_000_000_000_000_000)]));
}

#[test]
fn valueless_row_anywhere_changes_nothing() {
    let ms = vec![Model::pheno(TABLE).unwrap(), Model::horvath(TABLE).unwrap()];
    let plain = score(&ms, b"probeA,1.5\nprobeA,-0.5\n").unwrap();
    for input in [
        &b"probeA,NA\nprobeA,1.5\nprobeA,-0.5\n"[..],
        &b"probeA,1.5\nprobeA,\nprobeA,-0.5\n"[..],
        &b"probeA,1.5\nprobeA,-0.5\nprobeA,abc\n"[..],
    ] {
        assert_eq!(score(&ms, input).unwrap(), plain);
    }
}
