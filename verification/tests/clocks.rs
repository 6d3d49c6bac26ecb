use whisper::clock::timestamp_at;

#[test]
fn reading_within_range_is_the_timestamp() {
    assert_eq!(timestamp_at(0), 0);
    assert_eq!(timestamp_at(1), 1);
    assert_eq!(timestamp_at(1_440_297_960), 1_440_297_960);
    assert_eq!(timestamp_at(4_294_967_295), u32::MAX);
}

#[test]
fn reading_before_the_epoch_is_zero() {
    assert_eq!(timestamp_at(-1), 0);
    assert_eq!(timestamp_at(i64::MIN), 0);
}

#[test]
fn reading_beyond_the_range_is_the_last_second() {
    assert_eq!(timestamp_at(4_294_967_296), u32::MAX);
    assert_eq!(timestamp_at(i64::MAX), u32::MAX);
}
