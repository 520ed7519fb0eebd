use k_clustering::map_range;
use k_clustering::MapRangeError;

#[test]
fn map_range_basic_values() {
    assert_eq!(map_range(5, 0, 10, 0, 100), Ok(50));
    assert_eq!(map_range(127, 0, 255, 0, 255), Ok(127));
    assert_eq!(map_range(0, 0, 10, 0, 100), Ok(0));
    assert_eq!(map_range(10, 0, 10, 0, 100), Ok(100));
}

#[test]
fn map_range_reversed_and_negative_ranges() {
    // a reversed output range flips the direction
    assert_eq!(map_range(2, 0, 10, 10, 0), Ok(8));
    // shifted input range
    assert_eq!(map_range(-5, -10, 0, 0, 100), Ok(50));
    // decreasing input range
    assert_eq!(map_range(3, 10, 0, 0, 100), Ok(70));
}

#[test]
fn map_range_truncates_toward_zero() {
    // 1 * 10 / 3 is 3.33..: truncation gives 3
    assert_eq!(map_range(1, 0, 3, 0, 10), Ok(3));
    // -10 / 3 is -3.33..: truncation toward zero gives -3, not -4
    assert_eq!(map_range(1, 0, 3, 0, -10), Ok(-3));
}

#[test]
fn map_range_degenerate_range_is_an_error() {
    assert_eq!(map_range(5, 7, 7, 0, 100), Err(MapRangeError::DegenerateRange));
    assert_eq!(map_range(7, 7, 7, 0, 100), Err(MapRangeError::DegenerateRange));
}

#[test]
fn map_range_overflow_is_an_error() {
    assert_eq!(
        map_range(i64::MAX, 0, 1, 0, i64::MAX),
        Err(MapRangeError::OutOfRange)
    );
    assert_eq!(
        map_range(i64::MIN, 0, 1, 0, i64::MAX),
        Err(MapRangeError::OutOfRange)
    );
}

#[test]
fn map_range_round_trip() {
    // expanding map: the round trip is exact
    let y = map_range(3, 0, 10, 0, 100).unwrap();
    assert_eq!(y, 30);
    assert_eq!(map_range(y, 0, 100, 0, 10), Ok(3));
    // contracting map: the round trip lands within (b - a) / (d - c) + 1
    let y = map_range(137, 0, 255, 0, 10).unwrap();
    assert_eq!(y, 5);
    let back = map_range(y, 0, 10, 0, 255).unwrap();
    assert!((back - 137).abs() <= 255 / 10 + 1);
    // the round trip through a degenerate range raises the defined error
    assert_eq!(map_range(3, 5, 5, 0, 10), Err(MapRangeError::DegenerateRange));
}
