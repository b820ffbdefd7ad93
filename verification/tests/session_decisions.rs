use volmap_sqlite::deep::{decode_record, DeepBudget, DeepReason, DeepState, TypedValue};
use volmap_sqlite::geometry::{InspectionError, TextEncoding};
use volmap_sqlite::session::{
    deep_outcome, deep_reservation, finish_admission, memory_available, publication, publish_admission, CoverageReason,
    SessionState,
};
use volmap_sqlite::topology::{TopologyCoverageReason, TopologyPhase, TraversalBudget, WorkControl};

#[test]
fn changed_input_refuses_every_later_pass() {
    assert_eq!(finish_admission(SessionState::Scanning, false, false), Err(InspectionError::Invalidated));
    assert_eq!(finish_admission(SessionState::Published, false, true), Err(InspectionError::Invalidated));
    assert_eq!(finish_admission(SessionState::Published, true, false), Err(InspectionError::NotScanning));
    assert_eq!(finish_admission(SessionState::Scanning, true, true), Err(InspectionError::NotScanning));
    assert_eq!(finish_admission(SessionState::Scanning, true, false), Ok(()));
}

#[test]
fn a_pending_stop_is_published_before_the_requested_state() {
    let pending = Some((SessionState::Cancelled, CoverageReason::Cancelled));
    assert_eq!(
        publication(SessionState::Cancelled, pending, SessionState::Published, CoverageReason::Complete, None),
        pending
    );
    assert_eq!(
        publication(SessionState::Scanning, None, SessionState::Published, CoverageReason::Complete, None),
        Some((SessionState::Published, CoverageReason::Complete))
    );
    assert_eq!(
        publication(
            SessionState::Scanning,
            None,
            SessionState::Published,
            CoverageReason::Complete,
            Some(TopologyCoverageReason::Cancelled)
        ),
        Some((SessionState::Cancelled, CoverageReason::Complete))
    );
    assert_eq!(
        publication(SessionState::Invalidated, None, SessionState::Published, CoverageReason::Complete, None),
        None
    );
    assert_eq!(publish_admission(SessionState::Scanning, true, false, SessionState::Published), Ok(()));
    assert_eq!(publish_admission(SessionState::Cancelled, true, true, SessionState::Cancelled), Ok(()));
    assert_eq!(
        publish_admission(SessionState::Published, true, false, SessionState::Published),
        Err(InspectionError::NotScanning)
    );
    assert_eq!(
        publish_admission(SessionState::Scanning, false, false, SessionState::Published),
        Err(InspectionError::Invalidated)
    );
}

#[test]
fn deep_reservation_saturates() {
    assert_eq!(deep_reservation(100, 4096), 100 * 8 + 100 * 1024);
    assert_eq!(deep_reservation(10_000, 16), 10_000 * 8 + 16 * 1024);
    assert_eq!(deep_reservation(u64::MAX, 1), u64::MAX);
    assert!(memory_available(1000, 10, Some(990)));
    assert!(!memory_available(1000, 11, Some(990)));
    assert!(!memory_available(u64::MAX, 1, Some(u64::MAX)));
    assert!(!memory_available(1000, 0, None));
}

#[test]
fn a_deep_inspection_publishes_the_next_revision_only_when_current() {
    assert_eq!(deep_outcome(None, false, true, Some(1), 1), (DeepState::Completed, Some(2)));
    assert_eq!(deep_outcome(None, false, true, Some(2), 1), (DeepState::StaleRevision, None));
    assert_eq!(deep_outcome(None, true, true, Some(1), 1), (DeepState::Cancelled, None));
    assert_eq!(deep_outcome(None, false, false, Some(1), 1), (DeepState::InvalidatedSnapshot, None));
    assert_eq!(deep_outcome(None, false, true, Some(u64::MAX), u64::MAX), (DeepState::Failed, None));
    assert_eq!(deep_outcome(Some(DeepState::BudgetStopped), false, true, Some(1), 1), (DeepState::BudgetStopped, None));
    assert_eq!(deep_outcome(Some(DeepState::Failed), false, false, Some(1), 1), (DeepState::InvalidatedSnapshot, None));
}

#[test]
fn a_record_decodes_with_its_byte_total() {
    let bytes = [0x03u8, 0x01, 0x0F, 0xFF, 0x61];
    let r = decode_record(&bytes, TextEncoding::Utf8, 4, DeepBudget::default(), &Vec::new(), &|_bits: u64| 0u64, &|_at: u64| true);
    let (values, total) = r.unwrap();
    assert_eq!(values.len(), 2);
    assert_eq!(values[0].value, TypedValue::Integer { value: -1 });
    assert_eq!(values[0].field.payload_offset, 3);
    assert_eq!(values[1].value, TypedValue::Text { value: "a".to_string() });
    assert_eq!(values[1].field.payload_offset, 4);
    assert_eq!(values[1].field.ordinal, 1);
    assert_eq!(total, 3);
}

#[test]
fn constant_serial_types_need_schema_format_four() {
    let bytes = [0x02u8, 0x08];
    let failed = decode_record(&bytes, TextEncoding::Utf8, 1, DeepBudget::default(), &Vec::new(), &|_bits: u64| 0u64, &|_at: u64| true)
        .unwrap_err();
    assert_eq!(failed.reason, DeepReason::RecordInvalid);
    assert_eq!(failed.state, DeepState::Failed);
    let (values, _) =
        decode_record(&bytes, TextEncoding::Utf8, 4, DeepBudget::default(), &Vec::new(), &|_bits: u64| 0u64, &|_at: u64| true)
            .unwrap();
    assert_eq!(values[0].value, TypedValue::Integer { value: 0 });
}

#[test]
fn a_refusing_checkpoint_cancels_decoding() {
    let bytes = [0x03u8, 0x01, 0x0F, 0xFF, 0x61];
    let failed = decode_record(&bytes, TextEncoding::Utf8, 4, DeepBudget::default(), &Vec::new(), &|_bits: u64| 0u64, &|_at: u64| false)
        .unwrap_err();
    assert_eq!(failed.reason, DeepReason::Cancelled);
    assert_eq!(failed.state, DeepState::Cancelled);
    let budget = DeepBudget { max_values: 1, ..DeepBudget::default() };
    let failed = decode_record(&bytes, TextEncoding::Utf8, 4, budget, &Vec::new(), &|_bits: u64| 0u64, &|_at: u64| true).unwrap_err();
    assert_eq!(failed.reason, DeepReason::ValueCountBudget);
    assert_eq!(failed.state, DeepState::BudgetStopped);
}

#[test]
fn a_fresh_control_reports_only_requested_stops() {
    let mut c = WorkControl::new();
    c.mark_budget_exhausted();
    c.complete();
    let r = c.coverage(TraversalBudget::default());
    assert_eq!(r.reason, TopologyCoverageReason::Budget);
    assert_eq!(r.phase, TopologyPhase::Complete);
}
