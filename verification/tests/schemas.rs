use whisper::errors::SchemaError;
use whisper::schema::{RetentionPolicy, Schema, ARCHIVE_INFO_SIZE, METADATA_SIZE};

fn policies(shapes: &[(u32, u32)]) -> Vec<RetentionPolicy> {
    shapes.iter().map(|&(precision, points)| RetentionPolicy::new(precision, points)).collect()
}

#[test]
fn policy_derived_values() {
    let p = RetentionPolicy::new(60, 525_600);
    assert_eq!(p.precision, 60);
    assert_eq!(p.points(), 525_600);
    assert_eq!(p.retention(), 31_536_000);
    assert_eq!(p.size_on_disk(), 6_307_200);
    assert_eq!(RetentionPolicy::new(u32::MAX, u32::MAX).retention(), 18_446_744_065_119_617_025);
    assert_eq!(RetentionPolicy::new(1, u32::MAX).size_on_disk(), 51_539_607_540);
}

#[test]
fn header_sizes() {
    assert_eq!(METADATA_SIZE, 16);
    assert_eq!(ARCHIVE_INFO_SIZE, 12);
}

#[test]
fn single_archive_schema() {
    let schema = Schema::new(policies(&[(60, 5)])).unwrap();
    assert_eq!(schema.len(), 1);
    assert_eq!(schema.max_retention(), 300);
    assert_eq!(schema.size_on_disk(), 88);
    assert_eq!(schema.archive_offset(0), Some(28));
    assert_eq!(schema.archive_offset(1), None);
    assert_eq!(schema.retention_policies(), &policies(&[(60, 5)]));
}

#[test]
fn size_is_header_plus_table_plus_slots() {
    let shapes = [(1, 60), (60, 1440), (3600, 8760)];
    let schema = Schema::new(policies(&shapes)).unwrap();
    assert_eq!(schema.size_on_disk(), 16 + 12 * 3 + 12 * (60 + 1440 + 8760));
    assert_eq!(schema.size_on_disk(), 123_172);
    assert_eq!(schema.max_retention(), 31_536_000);
}

#[test]
fn offsets_increase_without_overlap() {
    let shapes = [(1, 60), (60, 1440), (3600, 8760)];
    let schema = Schema::new(policies(&shapes)).unwrap();
    assert_eq!(schema.archive_offset(0), Some(52));
    assert_eq!(schema.archive_offset(1), Some(52 + 720));
    assert_eq!(schema.archive_offset(2), Some(52 + 720 + 17_280));
    assert_eq!(schema.archive_offset(3), None);
    let mut end = 52u32;
    for (i, &(_, points)) in shapes.iter().enumerate() {
        let start = schema.archive_offset(i).unwrap();
        assert_eq!(start, end);
        end = start + 12 * points;
    }
    assert_eq!(end, schema.size_on_disk());
}

#[test]
fn empty_schema_is_refused() {
    assert_eq!(Schema::new(Vec::new()), Err(SchemaError::Empty));
}

#[test]
fn zero_precision_is_refused() {
    assert_eq!(Schema::new(policies(&[(0, 5)])), Err(SchemaError::ZeroPrecision));
    assert_eq!(Schema::new(policies(&[(1, 5), (0, 50)])), Err(SchemaError::ZeroPrecision));
}

#[test]
fn zero_points_is_refused() {
    assert_eq!(Schema::new(policies(&[(60, 0)])), Err(SchemaError::ZeroPoints));
}

#[test]
fn retention_beyond_32_bits_is_refused() {
    assert_eq!(Schema::new(policies(&[(65_536, 65_536)])), Err(SchemaError::RetentionTooLong));
    assert!(Schema::new(policies(&[(65_537, 65_535)])).is_ok());
}

#[test]
fn precisions_must_increase() {
    assert_eq!(Schema::new(policies(&[(60, 5), (60, 50)])), Err(SchemaError::PrecisionNotIncreasing));
    assert_eq!(Schema::new(policies(&[(60, 5), (30, 50)])), Err(SchemaError::PrecisionNotIncreasing));
}

#[test]
fn precisions_must_be_multiples() {
    assert_eq!(Schema::new(policies(&[(60, 5), (90, 50)])), Err(SchemaError::PrecisionNotMultiple));
    assert!(Schema::new(policies(&[(60, 5), (120, 50)])).is_ok());
}

#[test]
fn retentions_must_increase() {
    assert_eq!(Schema::new(policies(&[(60, 10), (120, 5)])), Err(SchemaError::RetentionNotIncreasing));
    assert_eq!(Schema::new(policies(&[(60, 10), (120, 4)])), Err(SchemaError::RetentionNotIncreasing));
    assert!(Schema::new(policies(&[(60, 10), (120, 6)])).is_ok());
}

#[test]
fn file_beyond_32_bit_offsets_is_refused() {
    // 28 bytes of header and 12 * 357_913_939 of slots are 4_294_967_296 bytes.
    assert_eq!(Schema::new(policies(&[(1, 357_913_939)])), Err(SchemaError::TooLarge));
    let largest = Schema::new(policies(&[(1, 357_913_938)])).unwrap();
    assert_eq!(largest.size_on_disk(), 4_294_967_284);
}

#[test]
fn first_fault_in_order_is_reported() {
    // the second archive breaks two rules; the earlier rule is reported
    assert_eq!(Schema::new(policies(&[(60, 10), (90, 1)])), Err(SchemaError::PrecisionNotMultiple));
    // the first faulty archive is reported, not a later one
    assert_eq!(Schema::new(policies(&[(60, 10), (60, 20), (0, 1)])), Err(SchemaError::PrecisionNotIncreasing));
}
