use whisper::errors::SchemaError;
use whisper::schema::{RetentionPolicy, Schema};

#[test]
fn parses_seconds() {
    assert_eq!(RetentionPolicy::parse("1s:60s"), Ok(RetentionPolicy::new(1, 60)));
}

#[test]
fn parses_minute_for_a_year() {
    assert_eq!(RetentionPolicy::parse("1m:1y"), Ok(RetentionPolicy::new(60, 525_600)));
}

#[test]
fn parses_every_unit() {
    assert_eq!(RetentionPolicy::parse("10s:1m"), Ok(RetentionPolicy::new(10, 6)));
    assert_eq!(RetentionPolicy::parse("5m:2h"), Ok(RetentionPolicy::new(300, 24)));
    assert_eq!(RetentionPolicy::parse("1h:7d"), Ok(RetentionPolicy::new(3_600, 168)));
    assert_eq!(RetentionPolicy::parse("1d:2w"), Ok(RetentionPolicy::new(86_400, 14)));
    assert_eq!(RetentionPolicy::parse("1w:1y"), Ok(RetentionPolicy::new(604_800, 52)));
    assert_eq!(RetentionPolicy::parse("1y:10y"), Ok(RetentionPolicy::new(31_536_000, 10)));
}

#[test]
fn points_are_whole_precisions() {
    assert_eq!(RetentionPolicy::parse("7s:60s"), Ok(RetentionPolicy::new(7, 8)));
    assert_eq!(RetentionPolicy::parse("60s:7s"), Ok(RetentionPolicy::new(60, 0)));
    assert_eq!(RetentionPolicy::parse("007s:0060s"), Ok(RetentionPolicy::new(7, 8)));
}

#[test]
fn malformed_specs_are_refused() {
    for bad in ["", ":", "1s", "1s:", ":60s", "s:60s", "1s:s", "1:60s", "1s:60", "1x:60s", "1s:60x",
        "1s 60s", "1s:60s:", "1s::60s", "1s:60s ", " 1s:60s", "-1s:60s", "1S:60s", "1s:6.0s", "1ｓ:60s"] {
        assert_eq!(RetentionPolicy::parse(bad), Err(SchemaError::BadSpec), "{:?}", bad);
    }
}

#[test]
fn zero_precision_spec_is_refused() {
    assert_eq!(RetentionPolicy::parse("0s:60s"), Err(SchemaError::ZeroPrecision));
}

#[test]
fn long_durations_are_refused() {
    assert_eq!(RetentionPolicy::parse("1s:137y"), Err(SchemaError::DurationTooLong));
    assert_eq!(RetentionPolicy::parse("4294967296s:1s"), Err(SchemaError::DurationTooLong));
    assert_eq!(RetentionPolicy::parse("1s:99999999999999999999999999999999s"), Err(SchemaError::DurationTooLong));
    assert_eq!(RetentionPolicy::parse("1s:4294967295s"), Ok(RetentionPolicy::new(1, u32::MAX)));
    assert_eq!(RetentionPolicy::parse("1s:136y"), Ok(RetentionPolicy::new(1, 4_288_896_000)));
}

#[test]
fn schema_from_specs() {
    let schema = Schema::new_from_retention_specs(vec!["1s:60s".to_string(), "1m:1y".to_string()]).unwrap();
    assert_eq!(
        schema.retention_policies(),
        &vec![RetentionPolicy::new(1, 60), RetentionPolicy::new(60, 525_600)]
    );
    assert_eq!(schema.max_retention(), 31_536_000);
    assert_eq!(schema.size_on_disk(), 16 + 24 + 720 + 6_307_200);
}

#[test]
fn schema_from_specs_reports_first_bad_text() {
    let specs = vec!["1s:60s".to_string(), "oops".to_string(), "0s:1s".to_string()];
    assert_eq!(Schema::new_from_retention_specs(specs), Err(SchemaError::BadSpec));
    let specs = vec!["0s:60s".to_string(), "oops".to_string()];
    assert_eq!(Schema::new_from_retention_specs(specs), Err(SchemaError::ZeroPrecision));
}

#[test]
fn schema_from_specs_reports_schema_faults() {
    let specs = vec!["1m:1h".to_string(), "90s:1d".to_string()];
    assert_eq!(Schema::new_from_retention_specs(specs), Err(SchemaError::PrecisionNotMultiple));
    assert_eq!(Schema::new_from_retention_specs(vec!["60s:7s".to_string()]), Err(SchemaError::ZeroPoints));
    assert_eq!(Schema::new_from_retention_specs(Vec::new()), Err(SchemaError::Empty));
}
