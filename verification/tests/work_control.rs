use volmap_sqlite::topology::{TopologyCoverageReason, TopologyPhase, TraversalBudget, WorkControl};

#[test]
fn work_control_reports_an_interrupted_unit_boundary() {
    let mut control = WorkControl::new();
    control.begin_phase(TopologyPhase::BtreeClaimCollection, Some(3));
    control.advance(TopologyPhase::BtreeClaimCollection);
    control.stop();

    let coverage = control.coverage(TraversalBudget::default());
    assert_eq!(coverage.reason, TopologyCoverageReason::OperatorStop);
    assert_eq!(coverage.phase, TopologyPhase::BtreeClaimCollection);
    assert_eq!(coverage.evaluated, 1);
    assert_eq!(coverage.next, Some(2));
    assert_eq!(coverage.remainder, Some(2));
    assert_eq!(coverage.next_phase, None);
}

#[test]
fn work_control_reports_a_stop_between_completed_phases() {
    let mut control = WorkControl::new();
    control.begin_phase(TopologyPhase::BtreeClaimValidation, Some(2));
    control.advance(TopologyPhase::BtreeClaimValidation);
    control.advance(TopologyPhase::BtreeClaimValidation);
    control.finish_phase(TopologyPhase::BtreeClaimValidation);
    control.cancel();

    let coverage = control.coverage(TraversalBudget::default());
    assert_eq!(coverage.reason, TopologyCoverageReason::Cancelled);
    assert_eq!(coverage.evaluated, 2);
    assert_eq!(coverage.next, None);
    assert_eq!(coverage.remainder, Some(0));
    assert_eq!(
        coverage.next_phase,
        Some(TopologyPhase::BtreeParentReconciliation)
    );
}

#[test]
fn completed_topology_discloses_budget_exhaustion() {
    let mut control = WorkControl::new();
    control.mark_budget_exhausted();
    control.complete();

    let coverage = control.coverage(TraversalBudget::default());
    assert_eq!(coverage.reason, TopologyCoverageReason::Budget);
    assert_eq!(coverage.phase, TopologyPhase::Complete);
}

#[test]
fn begin_phase_after_a_stop_keeps_the_boundary() {
    let mut control = WorkControl::new();
    control.begin_phase(TopologyPhase::BtreeTraversal, None);
    control.advance(TopologyPhase::BtreeTraversal);
    control.stop();
    control.begin_phase(TopologyPhase::OverflowInspection, Some(10));
    let coverage = control.coverage(TraversalBudget::default());
    assert_eq!(coverage.phase, TopologyPhase::BtreeTraversal);
    assert_eq!(coverage.evaluated, 1);
    assert_eq!(coverage.next, Some(2));
    assert_eq!(coverage.remainder, None);
}

#[test]
fn traversal_budget_keeps_its_ceilings() {
    let budget = TraversalBudget::with_total_pages(12, 34, 56);
    assert_eq!(budget.max_btree_pages(), 12);
    assert_eq!(budget.max_overflow_pages(), 34);
    assert_eq!(budget.max_total_pages(), 56);
    let default = TraversalBudget::default();
    assert_eq!(default.max_total_pages(), 1_000_000);
    assert_eq!(TraversalBudget::new(3, 0).max_btree_pages(), 3);
}
