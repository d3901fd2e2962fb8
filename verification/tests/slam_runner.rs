use slam_rs::{plan_registration, IcpError, Reference, Registration, SCAN_MATCHING_ITERATIONS};

#[test]
fn first_scan_is_its_own_reference() {
    assert_eq!(
        plan_registration(None, 360),
        Ok(Registration {
            reference: Reference::Incoming,
            reference_len: 360,
            max_iterations: 0
        })
    );
}

#[test]
fn later_scans_are_matched_against_the_one_before() {
    assert_eq!(
        plan_registration(Some(120), 360),
        Ok(Registration {
            reference: Reference::Previous,
            reference_len: 120,
            max_iterations: 10
        })
    );
    assert_eq!(SCAN_MATCHING_ITERATIONS, 10);
}

#[test]
fn a_scan_without_points_may_follow_one_with_points() {
    assert_eq!(
        plan_registration(Some(5), 0),
        Ok(Registration {
            reference: Reference::Previous,
            reference_len: 5,
            max_iterations: 10
        })
    );
}

#[test]
fn a_reference_without_points_is_refused() {
    assert_eq!(plan_registration(None, 0), Err(IcpError::EmptyReference));
    assert_eq!(plan_registration(Some(0), 360), Err(IcpError::EmptyReference));
    assert_eq!(plan_registration(Some(0), 0), Err(IcpError::EmptyReference));
}
