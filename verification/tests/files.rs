use whisper::errors::{HeaderError, WriteError};
use whisper::file::{Propagation, WhisperFile};
use whisper::header::AggregationType;
use whisper::point::Point;
use whisper::schema::{RetentionPolicy, Schema};

fn schema(shapes: &[(u32, u32)]) -> Schema {
    Schema::new(shapes.iter().map(|&(precision, points)| RetentionPolicy::new(precision, points)).collect())
        .unwrap()
}

/// A file without points, with the given aggregation method and factor.
fn file(shapes: &[(u32, u32)], aggregation: AggregationType, factor: f32) -> WhisperFile {
    let mut bytes = WhisperFile::new("metric.wsp".to_string(), &schema(shapes)).to_bytes();
    bytes[0..4].copy_from_slice(&aggregation.to_u32().to_be_bytes());
    bytes[8..12].copy_from_slice(&factor.to_bits().to_be_bytes());
    WhisperFile::open("metric.wsp".to_string(), &bytes).unwrap()
}

fn slots(file: &WhisperFile, level: usize) -> Vec<(u32, u64)> {
    let archive = &file.archives()[level];
    (0..archive.points() as usize)
        .map(|slot| archive.read(slot).unwrap())
        .map(|p| (p.timestamp, p.value))
        .collect()
}

#[test]
fn test_new() {
    let path = "/tmp/blah.wsp".to_string();
    let default_specs = vec!["1s:60s".to_string(), "1m:1y".to_string()];
    let schema = Schema::new_from_retention_specs(default_specs).unwrap();

    let file = WhisperFile::new(path, &schema);
    assert_eq!(file.path(), "/tmp/blah.wsp");
    assert_eq!(file.archives().len(), 2);
}

#[test]
fn new_file_layout() {
    let f = WhisperFile::new("a/b.wsp".to_string(), &schema(&[(1, 60), (60, 1440)]));
    assert_eq!(f.path(), "a/b.wsp");
    assert_eq!(f.header().aggregation_type(), AggregationType::Unknown);
    assert_eq!(f.header().max_retention(), 86_400);
    assert_eq!(f.header().x_files_factor(), 0.5f32.to_bits());
    assert_eq!(f.archives().len(), 2);
    assert_eq!(f.archives()[0].offset(), 40);
    assert_eq!(f.archives()[0].seconds_per_point(), 1);
    assert_eq!(f.archives()[0].points(), 60);
    assert_eq!(f.archives()[1].offset(), 760);
    assert_eq!(f.archives()[1].seconds_per_point(), 60);
    assert_eq!(f.archives()[1].points(), 1440);
    assert!(slots(&f, 0).iter().all(|&slot| slot == (0, 0)));
    assert!(slots(&f, 1).iter().all(|&slot| slot == (0, 0)));
}

#[test]
fn new_file_image() {
    let f = WhisperFile::new("m.wsp".to_string(), &schema(&[(60, 5)]));
    let image = f.to_bytes();
    assert_eq!(image.len(), 88);
    assert_eq!(
        &image[..28],
        &[0, 0, 0, 0, 0, 0, 1, 0x2C, 0x3F, 0, 0, 0, 0, 0, 0, 1, 0, 0, 0, 0x1C, 0, 0, 0, 0x3C, 0, 0, 0, 5]
    );
    assert!(image[28..].iter().all(|&b| b == 0));
}

#[test]
fn image_round_trips() {
    let mut f = file(&[(60, 5), (300, 4)], AggregationType::Last, 0.5);
    f.write_at(&Point::new(1200, 1), 1200).unwrap();
    f.write_at(&Point::new(1260, 2), 1260).unwrap();
    f.write_at(&Point::new(1320, 3), 1320).unwrap();
    let image = f.to_bytes();
    assert_eq!(image.len(), 16 + 24 + 60 + 48);
    let back = WhisperFile::open("metric.wsp".to_string(), &image).unwrap();
    assert_eq!(back, f);
    assert_eq!(back.to_bytes(), image);
}

#[test]
fn open_reads_header_and_slots() {
    let mut image = WhisperFile::new("m.wsp".to_string(), &schema(&[(60, 5)])).to_bytes();
    image[3] = 2;
    image[28 + 24..28 + 28].copy_from_slice(&720u32.to_be_bytes());
    image[28 + 28..28 + 36].copy_from_slice(&2.5f64.to_bits().to_be_bytes());
    let f = WhisperFile::open("x.wsp".to_string(), &image).unwrap();
    assert_eq!(f.path(), "x.wsp");
    assert_eq!(f.header().aggregation_type(), AggregationType::Sum);
    assert_eq!(
        slots(&f, 0),
        vec![(0, 0), (0, 0), (720, 2.5f64.to_bits()), (0, 0), (0, 0)]
    );
}

#[test]
fn open_refuses_a_short_file() {
    let image = WhisperFile::new("m.wsp".to_string(), &schema(&[(60, 5), (300, 4)])).to_bytes();
    let n = image.len();
    assert_eq!(WhisperFile::open("m.wsp".to_string(), &image[..n - 1]).err(), Some(HeaderError::ShortFile));
    assert_eq!(WhisperFile::open("m.wsp".to_string(), &image[..40]).err(), Some(HeaderError::ShortFile));
    assert_eq!(WhisperFile::open("m.wsp".to_string(), &image[..39]).err(), Some(HeaderError::Truncated));
    assert_eq!(WhisperFile::open("m.wsp".to_string(), &[]).err(), Some(HeaderError::Truncated));
}

#[test]
fn open_refuses_a_malformed_header() {
    let mut image = WhisperFile::new("m.wsp".to_string(), &schema(&[(60, 5), (300, 4)])).to_bytes();
    image[3] = 9;
    assert_eq!(WhisperFile::open("m.wsp".to_string(), &image).err(), Some(HeaderError::Malformed));
}

#[test]
fn open_passes_over_trailing_bytes() {
    let mut image = WhisperFile::new("m.wsp".to_string(), &schema(&[(60, 5)])).to_bytes();
    image.extend_from_slice(&[1, 2, 3]);
    let f = WhisperFile::open("m.wsp".to_string(), &image).unwrap();
    assert_eq!(f.to_bytes(), &image[..88]);
}

#[test]
fn written_point_is_read_back_from_its_slot() {
    let mut f = file(&[(60, 5)], AggregationType::Average, 0.5);
    // a multiple of the retention, so that the slot counted from the epoch is slot 0
    let now = 1_440_297_900;
    assert_eq!((now / 60) % 5, 0);
    assert_eq!(f.write_at(&Point::new(now + 7, 100.0f64.to_bits()), now + 7), Ok(Propagation::Settled));
    let slot = (((now + 7) / 60) % 5) as usize;
    assert_eq!(f.archives()[0].read(slot), Some(Point::new(now, 100.0f64.to_bits())));
    // from then on every interval stands in the slot counted from the epoch
    for later in [now + 60, now + 185, now + 299, now + 300, now + 60 * 1234] {
        assert_eq!(f.write_at(&Point::new(later, later as u64), later), Ok(Propagation::Settled));
        let slot = ((later / 60) % 5) as usize;
        assert_eq!(f.archives()[0].read(slot), Some(Point::new(later - later % 60, later as u64)));
    }
}

#[test]
fn written_point_is_read_back_from_the_slot_of_its_interval() {
    let mut f = file(&[(60, 5)], AggregationType::Average, 0.5);
    // the first point makes its interval the base, whatever its slot from the epoch
    let now = 1_440_297_960;
    assert_eq!((now / 60) % 5, 1);
    f.write_at(&Point::new(now, 1), now).unwrap();
    assert_eq!(f.archives()[0].slot_for(now), 0);
    assert_eq!(f.archives()[0].read(0), Some(Point::new(now, 1)));
    f.write_at(&Point::new(now + 60, 2), now + 60).unwrap();
    assert_eq!(f.archives()[0].slot_for(now + 60), 1);
    assert_eq!(f.archives()[0].read(1), Some(Point::new(now + 60, 2)));
}

#[test]
fn later_write_wins_whatever_the_timestamps() {
    let mut f = file(&[(60, 5)], AggregationType::Average, 0.5);
    f.write_at(&Point::new(1200, 1), 1500).unwrap();
    f.write_at(&Point::new(1330, 2), 1500).unwrap();
    f.write_at(&Point::new(1320, 3), 1500).unwrap();
    assert_eq!(f.archives()[0].read(2), Some(Point::new(1320, 3)));
    f.write_at(&Point::new(1359, 4), 1500).unwrap();
    f.write_at(&Point::new(1321, 5), 1500).unwrap();
    assert_eq!(f.archives()[0].read(2), Some(Point::new(1320, 5)));
}

#[test]
fn too_old_point_is_refused_and_nothing_changes() {
    let mut f = file(&[(60, 5), (300, 4)], AggregationType::Last, 0.0);
    f.write_at(&Point::new(1990, 1), 2000).unwrap();
    let before = f.to_bytes();
    assert_eq!(f.write_at(&Point::new(1699, 2), 2000), Err(WriteError::PointTooOld));
    assert_eq!(f.write_at(&Point::new(0, 2), 2000), Err(WriteError::PointTooOld));
    assert_eq!(f.to_bytes(), before);
    assert_eq!(f.write_at(&Point::new(1700, 2), 2000), Ok(Propagation::Settled));
    assert_ne!(f.to_bytes(), before);
}

#[test]
fn age_is_judged_by_the_finest_archive() {
    let mut f = file(&[(60, 5), (300, 40)], AggregationType::Last, 0.0);
    // within the retention of the coarser archive, but not of the finest
    assert_eq!(f.write_at(&Point::new(1000, 1), 2000), Err(WriteError::PointTooOld));
}

#[test]
fn future_point_is_accepted() {
    let mut f = file(&[(60, 5)], AggregationType::Average, 0.5);
    assert_eq!(f.write_at(&Point::new(5000, 1), 2000), Ok(Propagation::Settled));
    assert_eq!(f.archives()[0].read(0), Some(Point::new(4980, 1)));
}

#[test]
fn sparse_interval_leaves_a_gap() {
    let mut f = file(&[(60, 5), (300, 4)], AggregationType::Last, 0.5);
    assert_eq!(f.write_at(&Point::new(1200, 1), 1200), Ok(Propagation::Settled));
    assert_eq!(f.write_at(&Point::new(1260, 2), 1260), Ok(Propagation::Settled));
    assert_eq!(slots(&f, 0), vec![(1200, 1), (1260, 2), (0, 0), (0, 0), (0, 0)]);
    assert_eq!(slots(&f, 1), vec![(0, 0); 4]);
}

#[test]
fn last_value_is_carried_on() {
    let mut f = file(&[(60, 5), (300, 4)], AggregationType::Last, 0.5);
    f.write_at(&Point::new(1200, 1), 1200).unwrap();
    f.write_at(&Point::new(1260, 2), 1260).unwrap();
    assert_eq!(f.write_at(&Point::new(1325, 3), 1325), Ok(Propagation::Settled));
    assert_eq!(slots(&f, 1), vec![(1200, 3), (0, 0), (0, 0), (0, 0)]);
    // a late point for an older interval: the newest interval still gives the value
    assert_eq!(f.write_at(&Point::new(1250, 9), 1330), Ok(Propagation::Settled));
    assert_eq!(slots(&f, 0), vec![(1200, 9), (1260, 2), (1320, 3), (0, 0), (0, 0)]);
    assert_eq!(slots(&f, 1), vec![(1200, 3), (0, 0), (0, 0), (0, 0)]);
    assert_eq!(f.write_at(&Point::new(1440, 5), 1440), Ok(Propagation::Settled));
    assert_eq!(slots(&f, 1), vec![(1200, 5), (0, 0), (0, 0), (0, 0)]);
}

#[test]
fn last_value_is_carried_through_every_archive() {
    let mut f = file(&[(1, 2), (2, 2), (4, 2)], AggregationType::Last, 0.5);
    assert_eq!(f.write_at(&Point::new(100, 7), 100), Ok(Propagation::Settled));
    assert_eq!(slots(&f, 0), vec![(100, 7), (0, 0)]);
    assert_eq!(slots(&f, 1), vec![(100, 7), (0, 0)]);
    assert_eq!(slots(&f, 2), vec![(100, 7), (0, 0)]);
    assert_eq!(f.write_at(&Point::new(103, 8), 103), Ok(Propagation::Settled));
    assert_eq!(slots(&f, 0), vec![(100, 7), (103, 8)]);
    assert_eq!(slots(&f, 1), vec![(100, 7), (102, 8)]);
    assert_eq!(slots(&f, 2), vec![(100, 8), (0, 0)]);
}

#[test]
fn carrying_stops_at_the_first_sparse_interval() {
    let mut f = file(&[(1, 4), (2, 4), (8, 4)], AggregationType::Last, 0.5);
    // one of two in the second archive's interval, then one of four in the third's
    assert_eq!(f.write_at(&Point::new(104, 7), 104), Ok(Propagation::Settled));
    assert_eq!(slots(&f, 1), vec![(104, 7), (0, 0), (0, 0), (0, 0)]);
    assert_eq!(slots(&f, 2), vec![(0, 0); 4]);
    assert_eq!(f.write_at(&Point::new(106, 8), 106), Ok(Propagation::Settled));
    assert_eq!(slots(&f, 1), vec![(104, 7), (106, 8), (0, 0), (0, 0)]);
    assert_eq!(slots(&f, 2), vec![(104, 8), (0, 0), (0, 0), (0, 0)]);
}

#[test]
fn arithmetic_is_left_pending() {
    for aggregation in [AggregationType::Average, AggregationType::Sum, AggregationType::Max, AggregationType::Min] {
        let mut f = file(&[(60, 5), (300, 4)], aggregation, 0.5);
        f.write_at(&Point::new(1200, 1), 1200).unwrap();
        f.write_at(&Point::new(1320, 3), 1320).unwrap();
        assert_eq!(
            f.write_at(&Point::new(1270, 2), 1320),
            Ok(Propagation::Pending { level: 1, interval: 1200, aggregation, values: vec![1, 2, 3] })
        );
        assert_eq!(slots(&f, 1), vec![(0, 0); 4]);
    }
}

#[test]
fn pending_aggregate_is_stored_and_carried_on() {
    let mut f = file(&[(1, 2), (2, 2), (4, 2)], AggregationType::Sum, 1.0);
    assert_eq!(f.write_at(&Point::new(100, 7), 100), Ok(Propagation::Settled));
    assert_eq!(
        f.write_at(&Point::new(101, 8), 101),
        Ok(Propagation::Pending { level: 1, interval: 100, aggregation: AggregationType::Sum, values: vec![7, 8] })
    );
    assert_eq!(f.propagate(1, 100, 15), Ok(Propagation::Settled));
    assert_eq!(slots(&f, 1), vec![(100, 15), (0, 0)]);
    f.write_at(&Point::new(102, 1), 102).unwrap();
    f.write_at(&Point::new(103, 2), 103).unwrap();
    assert_eq!(
        f.propagate(1, 102, 3),
        Ok(Propagation::Pending { level: 2, interval: 100, aggregation: AggregationType::Sum, values: vec![15, 3] })
    );
    assert_eq!(f.propagate(2, 100, 18), Ok(Propagation::Settled));
    assert_eq!(slots(&f, 1), vec![(100, 15), (102, 3)]);
    assert_eq!(slots(&f, 2), vec![(100, 18), (0, 0)]);
}

#[test]
fn aggregate_for_no_coarser_archive_is_refused() {
    let mut f = file(&[(60, 5), (300, 4)], AggregationType::Sum, 0.5);
    let before = f.to_bytes();
    assert_eq!(f.propagate(0, 1200, 1), Err(WriteError::NoSuchArchive));
    assert_eq!(f.propagate(2, 1200, 1), Err(WriteError::NoSuchArchive));
    assert_eq!(f.propagate(usize::MAX, 1200, 1), Err(WriteError::NoSuchArchive));
    assert_eq!(f.to_bytes(), before);
    assert_eq!(f.propagate(1, 1234, 1), Ok(Propagation::Settled));
    assert_eq!(slots(&f, 1), vec![(1200, 1), (0, 0), (0, 0), (0, 0)]);
}

#[test]
fn without_a_method_nothing_is_carried_on() {
    let mut f = WhisperFile::new("m.wsp".to_string(), &schema(&[(1, 2), (2, 2)]));
    assert_eq!(f.write_at(&Point::new(100, 7), 100), Ok(Propagation::Settled));
    assert_eq!(f.write_at(&Point::new(101, 8), 101), Ok(Propagation::Settled));
    assert_eq!(slots(&f, 0), vec![(100, 7), (101, 8)]);
    assert_eq!(slots(&f, 1), vec![(0, 0), (0, 0)]);
}

#[test]
fn factor_of_zero_still_needs_a_known_value() {
    let mut f = file(&[(60, 5), (300, 4)], AggregationType::Last, 0.0);
    // the interval of this timestamp is stored as a gap
    assert_eq!(f.write_at(&Point::new(30, 1), 30), Ok(Propagation::Settled));
    assert_eq!(slots(&f, 1), vec![(0, 0); 4]);
    assert_eq!(f.write_at(&Point::new(1200, 2), 1200), Ok(Propagation::Settled));
    assert_eq!(slots(&f, 1), vec![(1200, 2), (0, 0), (0, 0), (0, 0)]);
}

#[test]
fn threshold_is_exact() {
    // three of five are less than the single nearest to three fifths
    let mut f = file(&[(60, 5), (300, 4)], AggregationType::Last, 0.6);
    f.write_at(&Point::new(1200, 1), 1200).unwrap();
    f.write_at(&Point::new(1260, 2), 1260).unwrap();
    f.write_at(&Point::new(1320, 3), 1320).unwrap();
    assert_eq!(slots(&f, 1), vec![(0, 0); 4]);
    f.write_at(&Point::new(1380, 4), 1380).unwrap();
    assert_eq!(slots(&f, 1), vec![(1200, 4), (0, 0), (0, 0), (0, 0)]);
}

#[test]
fn write_uses_the_clock() {
    let mut f = file(&[(60, 5)], AggregationType::Average, 0.5);
    // long before any clock that runs today
    assert_eq!(f.write(&Point::new(1, 1)), Err(WriteError::PointTooOld));
    assert_eq!(slots(&f, 0), vec![(0, 0); 5]);
    // never older than the clock
    assert_eq!(f.write(&Point::new(u32::MAX, 2)), Ok(Propagation::Settled));
    assert_eq!(f.archives()[0].read(0), Some(Point::new(u32::MAX - u32::MAX % 60, 2)));
}
