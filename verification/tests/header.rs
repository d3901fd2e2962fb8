use slam_rs::{Header, Time};

#[test]
fn time_keeps_its_parts() {
    let time = Time::new(12, 345_678_901);
    assert_eq!(time.sec(), 12);
    assert_eq!(time.nanosec(), 345_678_901);
}

#[test]
fn time_default_is_zero() {
    let time = Time::default();
    assert_eq!(time.sec(), 0);
    assert_eq!(time.nanosec(), 0);
    assert_eq!(time, Time::new(0, 0));
}

#[test]
fn time_takes_the_largest_values() {
    let time = Time::new(u64::MAX, u64::MAX);
    assert_eq!(time.sec(), u64::MAX);
    assert_eq!(time.nanosec(), u64::MAX);
}

#[test]
fn time_equality_goes_by_both_parts() {
    assert_eq!(Time::new(1, 2), Time::new(1, 2));
    assert_ne!(Time::new(1, 2), Time::new(1, 3));
    assert_ne!(Time::new(1, 2), Time::new(2, 2));
}

#[test]
fn header_keeps_stamp_and_frame() {
    let header = Header::new(Time::new(7, 500), "laser".to_string());
    assert_eq!(*header.stamp(), Time::new(7, 500));
    assert_eq!(header.stamp().sec(), 7);
    assert_eq!(header.stamp().nanosec(), 500);
    assert_eq!(header.frame_id(), "laser");
}

#[test]
fn header_default_is_empty() {
    let header = Header::default();
    assert_eq!(*header.stamp(), Time::new(0, 0));
    assert_eq!(header.frame_id(), "");
    assert_eq!(header, Header::new(Time::new(0, 0), "".to_string()));
}

#[test]
fn header_clone_is_equal() {
    let header = Header::new(Time::new(3, 4), "odom".to_string());
    let copy = header.clone();
    assert_eq!(copy, header);
    assert_eq!(copy.frame_id(), "odom");
}
