use crate::icp::IcpError;
use vstd::prelude::*;

verus! {

/// The rounds of matching and descent spent on registering one scan.
pub const SCAN_MATCHING_ITERATIONS: usize = 10;

/// The cloud that an incoming scan is registered against.
#[derive(Debug, Clone, Copy, PartialEq, Eq, Structural)]
pub enum Reference {
    /// The incoming scan itself: there is no scan before it.
    Incoming,
    /// The scan that was accepted last.
    Previous,
}

/// How an incoming scan is to be registered.
#[derive(Debug, Clone, Copy, PartialEq, Eq, Structural)]
pub struct Registration {
    /// The cloud to register against.
    pub reference: Reference,
    /// The number of points of that cloud, never zero.
    pub reference_len: usize,
    /// The rounds of matching and descent to run.
    pub max_iterations: usize,
}

/// The registration that a scan of `incoming_len` points calls for when
/// the scan accepted last had `latest_len` points, or when there was none.
///
/// The first scan is its own reference and is matched in no round at all,
/// so it leaves the pose where it was. Every later scan is matched against
/// the scan before it for the full number of rounds. A reference without
/// points is refused.
pub open spec fn planned(latest_len: Option<usize>, incoming_len: usize) -> Result<
    Registration,
    IcpError,
> {
    match latest_len {
        None => if incoming_len == 0 {
            Err(IcpError::EmptyReference)
        } else {
            Ok(
                Registration {
                    reference: Reference::Incoming,
                    reference_len: incoming_len,
                    max_iterations: 0,
                },
            )
        },
        Some(len) => if len == 0 {
            Err(IcpError::EmptyReference)
        } else {
            Ok(
                Registration {
                    reference: Reference::Previous,
                    reference_len: len,
                    max_iterations: SCAN_MATCHING_ITERATIONS,
                },
            )
        },
    }
}

/// Decides how an incoming scan is registered.
pub fn plan_registration(latest_len: Option<usize>, incoming_len: usize) -> (plan: Result<
    Registration,
    IcpError,
>)
    ensures
        plan == planned(latest_len, incoming_len),
{
    let (reference, reference_len, max_iterations) = match latest_len {
        None => (Reference::Incoming, incoming_len, 0),
        Some(len) => (Reference::Previous, len, SCAN_MATCHING_ITERATIONS),
    };
    if reference_len == 0 {
        return Err(IcpError::EmptyReference);
    }
    Ok(Registration { reference, reference_len, max_iterations })
}

} // verus!
