//! The decisions of an inspection session: when a structural pass may run,
//! what a finished pass publishes, and what a deep inspection ends in.
use vstd::prelude::*;

use crate::deep::DeepState;
use crate::geometry::InspectionError;
use crate::topology::TopologyCoverageReason;

verus! {

/// Where a session stands.
#[derive(Clone, Copy, Debug, PartialEq, Eq, Structural)]
pub enum SessionState {
    Scanning,
    Published,
    Cancelled,
    Stopped,
    Invalidated,
    Fatal,
}

/// Why the page inventory of a session ended where it did.
#[derive(Clone, Copy, Debug, PartialEq, Eq, Structural)]
pub enum CoverageReason {
    Complete,
    Cancelled,
    OperatorStop,
    InputChanged,
    FatalGeometry,
    AllocationFailure,
    CellBudget,
    ResidentMemoryBudget,
    StorageBudget,
    StorageFailure,
}

/// Whether a structural pass may start: the accepted inputs must still be
/// valid, the session must be scanning, and no other pass may be running.
/// A session whose inputs changed is refused for good.
pub fn finish_admission(state: SessionState, validated: bool, topology_active: bool) -> (r: Result<(), InspectionError>)
    ensures
        !validated ==> r == Err::<(), InspectionError>(InspectionError::Invalidated),
        validated && (state != SessionState::Scanning || topology_active) ==> r == Err::<(), InspectionError>(InspectionError::NotScanning),
        validated && state == SessionState::Scanning && !topology_active ==> r == Ok::<(), InspectionError>(()),
{
    if !validated {
        return Err(InspectionError::Invalidated);
    }
    if state != SessionState::Scanning {
        return Err(InspectionError::NotScanning);
    }
    if topology_active {
        return Err(InspectionError::NotScanning);
    }
    Ok(())
}

/// The state that a requested publication takes once the pass's own stop is
/// known: a cancellation publishes as cancelled, an operator stop as stopped.
pub open spec fn stopped_state(requested: SessionState, stop: Option<TopologyCoverageReason>) -> SessionState {
    match stop {
        Some(TopologyCoverageReason::Cancelled) => SessionState::Cancelled,
        Some(TopologyCoverageReason::OperatorStop) => SessionState::Stopped,
        _ => requested,
    }
}

/// What a finished structural pass publishes, if anything: a stop that the
/// inventory recorded while the pass ran takes precedence; otherwise a
/// session still scanning publishes the requested state (as its stop
/// dictates) and reason; any other session publishes nothing.
pub fn publication(
    current: SessionState,
    pending: Option<(SessionState, CoverageReason)>,
    requested: SessionState,
    reason: CoverageReason,
    stop: Option<TopologyCoverageReason>,
) -> (r: Option<(SessionState, CoverageReason)>)
    ensures
        pending is Some ==> r == pending,
        pending is None && current == SessionState::Scanning ==> r == Some((stopped_state(requested, stop), reason)),
        pending is None && current != SessionState::Scanning ==> r is None,
{
    match pending {
        Some(p) => Some(p),
        None => {
            if current == SessionState::Scanning {
                let state = match stop {
                    Some(TopologyCoverageReason::Cancelled) => SessionState::Cancelled,
                    Some(TopologyCoverageReason::OperatorStop) => SessionState::Stopped,
                    _ => requested,
                };
                Some((state, reason))
            } else {
                None
            }
        },
    }
}

/// Whether the pass's findings may be published after the inputs were
/// checked again: they must still be valid, and the session must still be
/// scanning, or hold the pending stop that is being published.
pub fn publish_admission(current: SessionState, validated: bool, pending_stop: bool, publish_state: SessionState) -> (r: Result<(), InspectionError>)
    ensures
        !validated ==> r == Err::<(), InspectionError>(InspectionError::Invalidated),
        validated ==> (r is Ok <==> (if pending_stop { current == publish_state } else { current == SessionState::Scanning })),
        validated && r is Err ==> r == Err::<(), InspectionError>(InspectionError::NotScanning),
{
    if !validated {
        return Err(InspectionError::Invalidated);
    }
    if (!pending_stop && current != SessionState::Scanning) || (pending_stop && current != publish_state) {
        return Err(InspectionError::NotScanning);
    }
    Ok(())
}

/// `a + b`, or `u64::MAX` where it would not fit.
pub open spec fn sat_add(a: int, b: int) -> int {
    if a + b > u64::MAX { u64::MAX as int } else { a + b }
}

/// `a * b`, or `u64::MAX` where it would not fit.
pub open spec fn sat_mul(a: int, b: int) -> int {
    if a * b > u64::MAX { u64::MAX as int } else { a * b }
}

/// The resident memory that a deep inspection of a `payload`-byte record
/// reserves: payload storage, text conversion scratch, decoded text and
/// retained evidence (eight bytes per payload byte), plus a kibibyte for each
/// value it may decode.
pub fn deep_reservation(payload: u64, max_values: u32) -> (r: u64)
    ensures
        r == sat_add(sat_mul(payload as int, 8), sat_mul(if (max_values as int) < payload { max_values as int } else { payload as int }, 1024)),
{
    let values: u64 = if (max_values as u64) < payload { max_values as u64 } else { payload };
    let storage: u64 = if payload > u64::MAX / 8 { u64::MAX } else { payload * 8 };
    let scratch: u64 = values * 1024;
    storage.saturating_add(scratch)
}

/// Whether a reservation fits under the resident-memory ceiling, given the
/// resident size now; with no resident size known, nothing fits.
pub fn memory_available(ceiling: u64, reservation: u64, resident: Option<u64>) -> (r: bool)
    ensures
        r == (resident matches Some(now) && now + reservation <= ceiling),
{
    match resident {
        Some(now) => match now.checked_add(reservation) {
            Some(required) => required <= ceiling,
            None => false,
        },
        None => false,
    }
}

/// What a deep inspection ends in, and the revision it publishes. A decoding
/// failure ends in its own state, or as an invalidated snapshot once the
/// inputs changed; a decoded record publishes revision `base + 1` only if the
/// inputs are still valid, `base` is still the published revision, and the
/// job was not cancelled.
pub fn deep_outcome(failure: Option<DeepState>, cancelled: bool, validated: bool, published: Option<u64>, base: u64) -> (r: (DeepState, Option<u64>))
    ensures
        failure matches Some(s) ==> r == (if validated { (s, None::<u64>) } else { (DeepState::InvalidatedSnapshot, None::<u64>) }),
        failure is None && !validated ==> r == (DeepState::InvalidatedSnapshot, None::<u64>),
        failure is None && validated && published != Some(base) ==> r == (DeepState::StaleRevision, None::<u64>),
        failure is None && validated && published == Some(base) && cancelled ==> r == (DeepState::Cancelled, None::<u64>),
        failure is None && validated && published == Some(base) && !cancelled && base == u64::MAX ==> r == (DeepState::Failed, None::<u64>),
        failure is None ==> (r.0 == DeepState::Completed <==> (validated && published == Some(base) && !cancelled && base < u64::MAX)),
        failure is None && r.0 == DeepState::Completed ==> r.1 == Some((base + 1) as u64),
        r.1 is Some ==> failure is None && r.0 == DeepState::Completed,
{
    match failure {
        Some(s) => {
            if validated {
                (s, None)
            } else {
                (DeepState::InvalidatedSnapshot, None)
            }
        },
        None => {
            if !validated {
                return (DeepState::InvalidatedSnapshot, None);
            }
            let current = match published {
                Some(revision) => revision == base,
                None => false,
            };
            if !current {
                return (DeepState::StaleRevision, None);
            }
            if cancelled {
                return (DeepState::Cancelled, None);
            }
            match base.checked_add(1) {
                Some(next) => (DeepState::Completed, Some(next)),
                None => (DeepState::Failed, None),
            }
        },
    }
}

} // verus!
