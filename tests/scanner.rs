use capture::scanner::{scan, RangeScanner, ScanError};

/// Messages m5 down to m0, newest first, each carrying its own name.
fn stream(ids: &[u64]) -> Vec<(u64, String)> {
    ids.iter().map(|i| (*i, format!("m{}", i))).collect()
}

fn names(v: &[&str]) -> Vec<String> {
    v.iter().map(|s| s.to_string()).collect()
}

#[test]
fn range_between_markers_oldest_first() {
    let r = scan([1, 3], stream(&[5, 4, 3, 2, 1, 0]));
    assert_eq!(r, Ok(names(&["m1", "m2", "m3"])));
}

#[test]
fn newer_marker_clicked_first_is_start_before_end() {
    let r = scan([3, 1], stream(&[5, 4, 3, 2, 1, 0]));
    assert_eq!(r, Err(ScanError::StartBeforeEnd));
}

#[test]
fn markers_absent_is_far_boundary_not_found() {
    let r = scan([1, 3], stream(&[5, 4]));
    assert_eq!(r, Err(ScanError::FarBoundaryNotFound));
}

#[test]
fn same_marker_twice_is_both_markers_same_message() {
    let r = scan([3, 3], stream(&[5, 4, 3, 2, 1, 0]));
    assert_eq!(r, Err(ScanError::BothMarkersSameMessage));
}

#[test]
fn end_marker_seen_twice_is_duplicate() {
    let r = scan([1, 3], stream(&[5, 3, 2, 3, 1]));
    assert_eq!(r, Err(ScanError::DuplicateEndMarker));
}

#[test]
fn stream_ends_while_collecting() {
    let r = scan([1, 3], stream(&[5, 4, 3, 2]));
    assert_eq!(r, Err(ScanError::FarBoundaryNotFound));
}

#[test]
fn empty_stream_is_far_boundary_not_found() {
    let r = scan([1, 3], stream(&[]));
    assert_eq!(r, Err(ScanError::FarBoundaryNotFound));
}

#[test]
fn adjacent_markers_give_two_messages() {
    let r = scan([2, 3], stream(&[4, 3, 2, 1]));
    assert_eq!(r, Ok(names(&["m2", "m3"])));
}

#[test]
fn messages_after_the_range_are_not_read() {
    let r = scan([1, 3], stream(&[3, 2, 1, 3, 1]));
    assert_eq!(r, Ok(names(&["m1", "m2", "m3"])));
}

#[test]
fn scanner_fed_step_by_step() {
    let mut s = RangeScanner::new([1, 3]);
    assert!(s.feed(5, "m5"));
    assert!(s.feed(3, "m3"));
    assert!(s.feed(2, "m2"));
    assert!(!s.feed(1, "m1"));
    assert!(!s.feed(0, "m0"));
    assert_eq!(s.finish(), Ok(vec!["m1", "m2", "m3"]));
}

#[test]
fn scanner_stops_on_error() {
    let mut s = RangeScanner::new([3, 1]);
    assert!(s.feed(5, 5u32));
    assert!(!s.feed(3, 3u32));
    assert_eq!(s.finish(), Err(ScanError::StartBeforeEnd));
}
