use memmap::MmapMut;
use whisper::errors::HeaderError;
use whisper::header::{AggregationType, ArchiveInfo, Header};
use whisper::schema::{RetentionPolicy, Schema};

// A file made for one archive of five points, one per minute, with one point in it.
const SAMPLE_FILE: [u8; 88] = [
    //  agg type
    0x00, 0x00, 0x00, 0x01,
    //  max ret
    0x00, 0x00, 0x01, 0x2C,
    // x_files_factor
    0x3F, 0x00, 0x00, 0x00,
    // archive_count
    0x00, 0x00, 0x00, 0x01,
    // archive_info[0].offset
    0x00, 0x00, 0x00, 0x1C,
    // archive_info[0].seconds_per_point
    0x00, 0x00, 0x00, 0x3C,
    // archive_info[0].points
    0x00, 0x00, 0x00, 0x05,
    // archive[0] data
    0x55, 0xD9, 0x33, 0xE8, 0x40, 0x59, 0x00, 0x00,
    0x00, 0x00, 0x00, 0x00, 0x00, 0x00, 0x00, 0x00,
    0x00, 0x00, 0x00, 0x00, 0x00, 0x00, 0x00, 0x00,
    0x00, 0x00, 0x00, 0x00, 0x00, 0x00, 0x00, 0x00,
    0x00, 0x00, 0x00, 0x00, 0x00, 0x00, 0x00, 0x00,
    0x00, 0x00, 0x00, 0x00, 0x00, 0x00, 0x00, 0x00,
    0x00, 0x00, 0x00, 0x00, 0x00, 0x00, 0x00, 0x00,
    0x00, 0x00, 0x00, 0x00,
];

fn schema(shapes: &[(u32, u32)]) -> Schema {
    Schema::new(shapes.iter().map(|&(precision, points)| RetentionPolicy::new(precision, points)).collect())
        .unwrap()
}

fn number(bytes: &mut [u8], at: usize, value: u32) {
    bytes[at..at + 4].copy_from_slice(&value.to_be_bytes());
}

#[test]
fn test_header() {
    let mut anon_mmap = MmapMut::map_anon(SAMPLE_FILE.len()).unwrap();
    anon_mmap.copy_from_slice(&SAMPLE_FILE[..]);

    let hdr = Header::new_from_slice(&anon_mmap[..]).unwrap();

    // the stored number 1 stands for the average
    assert_eq!(hdr.aggregation_type(), AggregationType::Average);
    assert_eq!(hdr.max_retention(), 300);
    assert_eq!(hdr.x_files_factor(), 0.5f32.to_bits());

    let archives = hdr.mmap_to_archives(&anon_mmap[..]).unwrap();
    assert_eq!(archives.len(), 1);
    assert_eq!(archives[0].seconds_per_point(), 60);
    assert_eq!(archives[0].points(), 5);
    assert_eq!(archives[0].size(), 60); // 5 points * (8 bytes float + 4 bytes ts) = 60 bytes
}

#[test]
fn sample_header_fields() {
    let hdr = Header::new_from_slice(&SAMPLE_FILE[..28]).unwrap();
    assert_eq!(hdr.aggregation_type().to_u32(), 1);
    assert_eq!(hdr.max_retention(), 300);
    assert_eq!(f32::from_bits(hdr.x_files_factor()), 0.5);
    assert_eq!(hdr.archive_infos(), &vec![ArchiveInfo { offset: 28, precision: 60, points: 5 }]);
    assert_eq!(hdr.size_on_disk(), 88);
}

#[test]
fn sample_archive_holds_its_point() {
    let hdr = Header::new_from_slice(&SAMPLE_FILE).unwrap();
    let archives = hdr.mmap_to_archives(&SAMPLE_FILE).unwrap();
    assert_eq!(archives[0].offset(), 28);
    let first = archives[0].read(0).unwrap();
    assert_eq!(first.timestamp, 1_440_297_960);
    assert_eq!(f64::from_bits(first.value), 100.0);
    for slot in 1..5 {
        assert!(archives[0].read(slot).unwrap().is_gap());
    }
    assert_eq!(archives[0].as_bytes(), &SAMPLE_FILE[28..]);
}

#[test]
fn aggregation_numbers() {
    let all = [
        (0, AggregationType::Unknown),
        (1, AggregationType::Average),
        (2, AggregationType::Sum),
        (3, AggregationType::Last),
        (4, AggregationType::Max),
        (5, AggregationType::Min),
    ];
    for (id, aggregation) in all {
        assert_eq!(aggregation.to_u32(), id);
        assert_eq!(AggregationType::from_u32(id), Some(aggregation));
    }
    assert_eq!(AggregationType::from_u32(6), None);
    assert_eq!(AggregationType::from_u32(u32::MAX), None);
}

#[test]
fn archives_start_behind_the_table() {
    assert_eq!(Header::archives_start(0), 16);
    assert_eq!(Header::archives_start(1), 28);
    assert_eq!(Header::archives_start(3), 52);
    assert_eq!(Header::archives_start(u32::MAX), 51_539_607_556);
}

#[test]
fn new_header_defaults() {
    let hdr = Header::new(&schema(&[(1, 60), (60, 1440)]));
    assert_eq!(hdr.aggregation_type(), AggregationType::Unknown);
    assert_eq!(hdr.max_retention(), 86_400);
    assert_eq!(f32::from_bits(hdr.x_files_factor()), 0.5);
    assert_eq!(
        hdr.archive_infos(),
        &vec![
            ArchiveInfo { offset: 40, precision: 1, points: 60 },
            ArchiveInfo { offset: 760, precision: 60, points: 1440 },
        ]
    );
    assert_eq!(hdr.size_on_disk(), 16 + 24 + 720 + 17_280);
}

#[test]
fn header_serializes_to_exact_bytes() {
    let hdr = Header::new(&schema(&[(60, 5)]));
    let mut expected = SAMPLE_FILE[..28].to_vec();
    expected[3] = 0;
    assert_eq!(hdr.serialize(), expected);
}

#[test]
fn header_round_trips() {
    for shapes in [vec![(60, 5)], vec![(1, 60), (60, 525_600)], vec![(10, 360), (60, 1440), (3600, 720), (86_400, 365)]] {
        let hdr = Header::new(&schema(&shapes));
        let back = Header::new_from_slice(&hdr.serialize()).unwrap();
        assert_eq!(back, hdr);
        assert_eq!(back.aggregation_type(), AggregationType::Unknown);
        assert_eq!(back.max_retention(), hdr.max_retention());
        assert_eq!(back.x_files_factor(), hdr.x_files_factor());
        assert_eq!(back.archive_infos(), hdr.archive_infos());
        assert_eq!(back.archive_infos().len(), shapes.len());
    }
}

#[test]
fn parsed_header_serializes_to_the_same_bytes() {
    let hdr = Header::new_from_slice(&SAMPLE_FILE).unwrap();
    assert_eq!(hdr.serialize(), &SAMPLE_FILE[..28]);
}

#[test]
fn short_header_is_truncated() {
    assert_eq!(Header::new_from_slice(&[]), Err(HeaderError::Truncated));
    assert_eq!(Header::new_from_slice(&SAMPLE_FILE[..15]), Err(HeaderError::Truncated));
    assert_eq!(Header::new_from_slice(&SAMPLE_FILE[..16]), Err(HeaderError::Truncated));
    assert_eq!(Header::new_from_slice(&SAMPLE_FILE[..27]), Err(HeaderError::Truncated));
    assert!(Header::new_from_slice(&SAMPLE_FILE[..28]).is_ok());
}

#[test]
fn archive_count_beyond_the_bytes_is_truncated() {
    let mut bytes = SAMPLE_FILE.to_vec();
    number(&mut bytes, 12, 7);
    assert_eq!(Header::new_from_slice(&bytes), Err(HeaderError::Truncated));
    number(&mut bytes, 12, u32::MAX);
    assert_eq!(Header::new_from_slice(&bytes), Err(HeaderError::Truncated));
}

#[test]
fn unknown_aggregation_number_is_malformed() {
    let mut bytes = SAMPLE_FILE.to_vec();
    number(&mut bytes, 0, 6);
    assert_eq!(Header::new_from_slice(&bytes), Err(HeaderError::Malformed));
    number(&mut bytes, 0, 5);
    assert_eq!(Header::new_from_slice(&bytes).unwrap().aggregation_type(), AggregationType::Min);
}

#[test]
fn factor_outside_zero_to_one_is_malformed() {
    let mut bytes = SAMPLE_FILE.to_vec();
    for factor in [1.5f32, -0.5, f32::NAN, f32::INFINITY, -0.0] {
        number(&mut bytes, 8, factor.to_bits());
        assert_eq!(Header::new_from_slice(&bytes), Err(HeaderError::Malformed), "{}", factor);
    }
    for factor in [0.0f32, 1.0, 0.25, f32::MIN_POSITIVE] {
        number(&mut bytes, 8, factor.to_bits());
        assert_eq!(Header::new_from_slice(&bytes).unwrap().x_files_factor(), factor.to_bits());
    }
}

#[test]
fn no_archive_is_malformed() {
    let mut bytes = SAMPLE_FILE.to_vec();
    number(&mut bytes, 12, 0);
    assert_eq!(Header::new_from_slice(&bytes), Err(HeaderError::Malformed));
}

#[test]
fn wrong_max_retention_is_malformed() {
    let mut bytes = SAMPLE_FILE.to_vec();
    number(&mut bytes, 4, 301);
    assert_eq!(Header::new_from_slice(&bytes), Err(HeaderError::Malformed));
}

#[test]
fn misplaced_archive_is_malformed() {
    let mut bytes = SAMPLE_FILE.to_vec();
    number(&mut bytes, 16, 29);
    assert_eq!(Header::new_from_slice(&bytes), Err(HeaderError::Malformed));
    number(&mut bytes, 16, 16);
    assert_eq!(Header::new_from_slice(&bytes), Err(HeaderError::Malformed));
}

#[test]
fn archives_that_are_no_schema_are_malformed() {
    let good = Header::new(&schema(&[(60, 10), (120, 10)])).serialize();
    assert!(Header::new_from_slice(&good).is_ok());
    // second precision no multiple of the first
    let mut bytes = good.clone();
    number(&mut bytes, 32, 90);
    number(&mut bytes, 4, 900);
    assert_eq!(Header::new_from_slice(&bytes), Err(HeaderError::Malformed));
    // second precision not above the first
    let mut bytes = good.clone();
    number(&mut bytes, 32, 60);
    number(&mut bytes, 36, 20);
    assert_eq!(Header::new_from_slice(&bytes), Err(HeaderError::Malformed));
    // zero precision
    let mut bytes = good.clone();
    number(&mut bytes, 20, 0);
    assert_eq!(Header::new_from_slice(&bytes), Err(HeaderError::Malformed));
    // zero points
    let mut bytes = SAMPLE_FILE.to_vec();
    number(&mut bytes, 24, 0);
    number(&mut bytes, 4, 0);
    assert_eq!(Header::new_from_slice(&bytes), Err(HeaderError::Malformed));
}

#[test]
fn image_shorter_than_its_archives_is_short() {
    let hdr = Header::new_from_slice(&SAMPLE_FILE).unwrap();
    assert_eq!(hdr.mmap_to_archives(&SAMPLE_FILE[..87]), Err(HeaderError::ShortFile));
    assert_eq!(hdr.mmap_to_archives(&SAMPLE_FILE[..28]), Err(HeaderError::ShortFile));
    assert!(hdr.mmap_to_archives(&SAMPLE_FILE[..88]).is_ok());
}

#[test]
fn bytes_behind_the_last_archive_are_passed_over() {
    let hdr = Header::new_from_slice(&SAMPLE_FILE).unwrap();
    let mut longer = SAMPLE_FILE.to_vec();
    longer.extend_from_slice(&[0xAB; 5]);
    let archives = hdr.mmap_to_archives(&longer).unwrap();
    assert_eq!(archives.len(), 1);
    assert_eq!(archives[0].as_bytes(), &SAMPLE_FILE[28..]);
}
