//! Relationship topology between pages: claims, validation, traversal
//! ceilings, and the phase-by-phase account of structural work.
use vstd::prelude::*;

use crate::btree::{ByteRange, Kind};
use crate::freelist::FreelistEvidence;
use crate::pointer_map::{PointerMapDiagnostic, PointerMapEvidence};
use crate::roles::PageClassification;
use crate::signal::StopSignal;

verus! {

#[derive(Clone, Copy, Debug, PartialEq, Eq, Structural)]
pub struct PageIdentity {
    pub page_number: u32,
}

/// A page, or one cell of a page, as the source of a relationship.
#[derive(Clone, Copy, Debug, PartialEq, Eq, Structural)]
pub enum EntityIdentity {
    Page { page_number: u32 },
    Cell { page_number: u32, cell_index: u16 },
}

#[derive(Clone, Copy, Debug, PartialEq, Eq, Structural)]
pub enum RelationshipKind {
    BtreeChild,
    FreelistTrunk,
    FreelistLeaf,
    Overflow,
}

#[derive(Clone, Copy, Debug, PartialEq, Eq, Structural)]
pub enum RelationshipState {
    Validated,
    Unresolved,
    Invalid,
    Conflicting,
    Terminal,
}

#[derive(Clone, Copy, Debug, PartialEq, Eq, Structural)]
pub enum TraversalKind {
    Btree,
    Freelist,
    Overflow,
}

#[derive(Clone, Copy, Debug, PartialEq, Eq, Structural)]
pub enum TraversalStopReason {
    MissingTarget,
    OutOfRange,
    CoverageStop,
    InvalidReference,
    TypeMismatch,
    Cycle,
    ConflictingClaim,
    OverlappingExtent,
    Budget,
    Cancelled,
    OperatorStop,
}

#[derive(Clone, Copy, Debug, PartialEq, Eq, Structural)]
pub enum TopologyCoverageReason {
    Complete,
    Budget,
    Cancelled,
    OperatorStop,
}

/// The named structural phases, in the order in which topology work runs.
#[derive(Clone, Copy, Debug, PartialEq, Eq, Structural)]
pub enum TopologyPhase {
    BtreeClaimCollection,
    BtreeClaimValidation,
    BtreeParentReconciliation,
    BtreeCycleReconciliation,
    BtreeRelationshipNormalization,
    BtreeTraversal,
    OverflowInspection,
    OverflowReconciliation,
    OverflowRelationshipNormalization,
    FreelistInspection,
    AllocationReconciliation,
    PointerMapInspection,
    PointerMapValidation,
    PointerMapReconciliation,
    RoleReconciliation,
    SchemaInspection,
    Complete,
}

/// The SQLite format rule under which a byte range was read as evidence.
#[derive(Clone, Copy, Debug, PartialEq, Eq, Structural)]
pub enum ValidationRule {
    BtreeHeader,
    ReservedPageGeometry,
    BtreeInteriorLeftChild,
    BtreeInteriorRightmostChild,
    BtreeFirstOverflowPage,
    OverflowNextPage,
    HeaderFirstFreelistTrunk,
    HeaderFreelistPageCount,
    FreelistNextTrunk,
    FreelistLeafCount,
    FreelistLeafPage,
    HeaderLargestRoot,
    HeaderIncrementalVacuum,
    PointerMapEntry,
    PointerMapExtent,
    SelectedCellPayload,
    SelectedOverflowPayload,
    SelectedRecordField,
    SchemaRecord,
    SchemaOverflowPayload,
}

/// The bytes of one page that support a claim.
#[derive(Clone, Copy, Debug, PartialEq, Eq, Structural)]
pub struct PhysicalEvidence {
    pub page: PageIdentity,
    pub range: ByteRange,
    pub validation_rule: ValidationRule,
}

/// Stable identity of a relationship claim, derived from its source location.
#[derive(Clone, Copy, Debug, PartialEq, Eq, Structural)]
pub enum ClaimId {
    /// The left-child pointer of an interior cell.
    BtreeCell { page_number: u32, cell_index: u16 },
    /// The rightmost-child pointer of an interior page header.
    BtreeRightmost { page_number: u32 },
    /// The first-overflow pointer of a cell.
    OverflowCell { page_number: u32, cell_index: u16 },
    /// The next-page pointer of an overflow page.
    OverflowPage { page_number: u32 },
    /// A freelist pointer at a byte of a page.
    Freelist { page_number: u32, byte: u32 },
    /// The reconciled role of a page, when no relationship names it.
    RolePage { page_number: u32 },
}

/// A pointer found in the file: what it claims, where it was read, and how
/// far it was validated.
#[derive(Clone, Copy, Debug, PartialEq, Eq, Structural)]
pub struct RelationshipClaim {
    pub id: ClaimId,
    pub kind: RelationshipKind,
    pub source: EntityIdentity,
    pub target: Option<PageIdentity>,
    pub evidence: PhysicalEvidence,
    pub state: RelationshipState,
    pub stop_reason: Option<TraversalStopReason>,
}

/// A validated relationship.
#[derive(Clone, Copy, Debug, PartialEq, Eq, Structural)]
pub struct Relationship {
    pub claim_id: ClaimId,
    pub kind: RelationshipKind,
    pub source: EntityIdentity,
    pub target: PageIdentity,
}

#[derive(Clone, Copy, Debug, PartialEq, Eq, Structural)]
pub struct TraversalStop {
    pub reason: TraversalStopReason,
    pub claim_id: ClaimId,
    pub intended_target: Option<PageIdentity>,
}

/// A followed chain of validated links from an origin, with where it stopped.
#[derive(Clone, Debug, PartialEq, Eq)]
pub struct Traversal {
    pub kind: TraversalKind,
    pub origin: EntityIdentity,
    pub validated_prefix: Vec<PageIdentity>,
    pub stop: Option<TraversalStop>,
}

#[derive(Clone, Copy, Debug, PartialEq, Eq, Structural)]
pub enum DiagnosticSeverity {
    Warning,
    Error,
}

#[derive(Clone, Copy, Debug, PartialEq, Eq, Structural)]
pub enum Containment {
    TraversalStopped,
    RelationshipExcluded,
}

/// The finding that a structural diagnostic reports.
#[derive(Clone, Copy, Debug, PartialEq, Eq, Structural)]
pub enum DiagnosticCode {
    BtreeChildOverlappingSource,
    BtreeChildInvalidPage,
    BtreeChildOutOfRange,
    BtreeChildMissing,
    BtreeChildTypeMismatch,
    BtreeDuplicateParent,
    BtreeCycle,
    OverflowOverlappingSource,
    OverflowFirstPageMissing,
    OverflowFirstPageOutOfRange,
    OverflowNextPageMissing,
    OverflowNextPageOutOfRange,
    OverflowInvalidPage,
    OverflowPageTypeConflict,
    OverflowPointerReadFailed,
    OverflowChainTruncated,
    OverflowChainTooLong,
    OverflowCycle,
    OverflowDuplicateOwner,
    FreelistReadFailed,
    FreelistInvalidPage,
    FreelistPageOutOfRange,
    FreelistReservedPageConflict,
    FreelistTrunkCycle,
    FreelistRepeatedClaim,
    FreelistLeafCountExceedsCapacity,
    FreelistTotalMismatch,
    /// A freelist page that a B-tree or overflow claim also names.
    FreelistStorageRoleConflict,
    PageRoleConflict,
    /// A pointer-map finding, reported under its own code.
    PointerMap(PointerMapDiagnostic),
}

#[derive(Clone, Debug, PartialEq, Eq)]
pub struct StructuralDiagnostic {
    pub code: DiagnosticCode,
    pub severity: DiagnosticSeverity,
    pub evidence: Vec<PhysicalEvidence>,
    pub affected_relationships: Vec<ClaimId>,
    pub containment: Containment,
}

/// Spec-level traversal facts.
pub struct TraversalView {
    pub kind: TraversalKind,
    pub origin: EntityIdentity,
    pub validated_prefix: Seq<PageIdentity>,
    pub stop: Option<TraversalStop>,
}

impl View for Traversal {
    type V = TraversalView;

    open spec fn view(&self) -> TraversalView {
        TraversalView { kind: self.kind, origin: self.origin, validated_prefix: self.validated_prefix@, stop: self.stop }
    }
}

/// Spec-level diagnostic facts.
pub struct DiagnosticView {
    pub code: DiagnosticCode,
    pub severity: DiagnosticSeverity,
    pub evidence: Seq<PhysicalEvidence>,
    pub affected_relationships: Seq<ClaimId>,
    pub containment: Containment,
}

impl View for StructuralDiagnostic {
    type V = DiagnosticView;

    open spec fn view(&self) -> DiagnosticView {
        DiagnosticView {
            code: self.code,
            severity: self.severity,
            evidence: self.evidence@,
            affected_relationships: self.affected_relationships@,
            containment: self.containment,
        }
    }
}

/// The diagnostic that reports `code` against one claim.
pub open spec fn spec_diagnostic(code: DiagnosticCode, claim: RelationshipClaim, containment: Containment) -> DiagnosticView {
    DiagnosticView {
        code,
        severity: DiagnosticSeverity::Error,
        evidence: seq![claim.evidence],
        affected_relationships: seq![claim.id],
        containment,
    }
}

/// Reports `code` against `claim`.
pub fn diagnostic(code: DiagnosticCode, claim: &RelationshipClaim, containment: Containment) -> (r: StructuralDiagnostic)
    ensures
        r@ == spec_diagnostic(code, *claim, containment),
{
    let mut evidence = Vec::new();
    evidence.push(claim.evidence);
    let mut affected = Vec::new();
    affected.push(claim.id);
    let r = StructuralDiagnostic { code, severity: DiagnosticSeverity::Error, evidence, affected_relationships: affected, containment };
    assert(r@.evidence =~= seq![claim.evidence]);
    assert(r@.affected_relationships =~= seq![claim.id]);
    r
}

/// Explicit ceilings for relationship traversal. Validation of the physical
/// claims remains independent from how far a traversal is allowed to follow.
#[derive(Clone, Copy, Debug, PartialEq, Eq, Structural)]
pub struct TraversalBudget {
    btree_depth: u32,
    overflow_depth: u32,
    allocation_ceiling: u64,
}

/// Where structural work stands: the phase containing the stop boundary, the
/// units evaluated in it, and what remains.
#[derive(Clone, Copy, Debug, PartialEq, Eq, Structural)]
pub struct TopologyCoverage {
    pub reason: TopologyCoverageReason,
    /// The phase containing the stop boundary, or Complete after all phases.
    pub phase: TopologyPhase,
    /// Fully evaluated units in this phase.
    pub evaluated: u64,
    /// Total units in this phase when known before the phase finishes.
    pub total: Option<u64>,
    /// The next one-based unit in this phase, if one remains or the total is
    /// not yet knowable.
    pub next: Option<u64>,
    /// Unevaluated units in this phase when the total is known.
    pub remainder: Option<u64>,
    /// The next phase when a stop landed exactly after this phase completed.
    pub next_phase: Option<TopologyPhase>,
    pub traversal_budget: TraversalBudget,
}

impl TopologyPhase {
    /// The stored code of a phase (1 through 17; Complete is 12).
    pub open spec fn spec_code(self) -> u8 {
        match self {
            TopologyPhase::BtreeClaimCollection => 1,
            TopologyPhase::BtreeClaimValidation => 2,
            TopologyPhase::BtreeParentReconciliation => 3,
            TopologyPhase::BtreeCycleReconciliation => 4,
            TopologyPhase::BtreeRelationshipNormalization => 5,
            TopologyPhase::BtreeTraversal => 6,
            TopologyPhase::OverflowInspection => 7,
            TopologyPhase::OverflowReconciliation => 8,
            TopologyPhase::OverflowRelationshipNormalization => 9,
            TopologyPhase::FreelistInspection => 10,
            TopologyPhase::AllocationReconciliation => 11,
            TopologyPhase::PointerMapInspection => 13,
            TopologyPhase::PointerMapValidation => 14,
            TopologyPhase::PointerMapReconciliation => 15,
            TopologyPhase::RoleReconciliation => 16,
            TopologyPhase::SchemaInspection => 17,
            TopologyPhase::Complete => 12,
        }
    }

    pub fn code(self) -> (r: u8)
        ensures
            r == self.spec_code(),
    {
        match self {
            TopologyPhase::BtreeClaimCollection => 1,
            TopologyPhase::BtreeClaimValidation => 2,
            TopologyPhase::BtreeParentReconciliation => 3,
            TopologyPhase::BtreeCycleReconciliation => 4,
            TopologyPhase::BtreeRelationshipNormalization => 5,
            TopologyPhase::BtreeTraversal => 6,
            TopologyPhase::OverflowInspection => 7,
            TopologyPhase::OverflowReconciliation => 8,
            TopologyPhase::OverflowRelationshipNormalization => 9,
            TopologyPhase::FreelistInspection => 10,
            TopologyPhase::AllocationReconciliation => 11,
            TopologyPhase::PointerMapInspection => 13,
            TopologyPhase::PointerMapValidation => 14,
            TopologyPhase::PointerMapReconciliation => 15,
            TopologyPhase::RoleReconciliation => 16,
            TopologyPhase::SchemaInspection => 17,
            TopologyPhase::Complete => 12,
        }
    }
}

/// The phase stored under a code; unknown codes read as Complete.
pub open spec fn spec_decode_phase(value: u8) -> TopologyPhase {
    if value == 1 {
        TopologyPhase::BtreeClaimCollection
    } else if value == 2 {
        TopologyPhase::BtreeClaimValidation
    } else if value == 3 {
        TopologyPhase::BtreeParentReconciliation
    } else if value == 4 {
        TopologyPhase::BtreeCycleReconciliation
    } else if value == 5 {
        TopologyPhase::BtreeRelationshipNormalization
    } else if value == 6 {
        TopologyPhase::BtreeTraversal
    } else if value == 7 {
        TopologyPhase::OverflowInspection
    } else if value == 8 {
        TopologyPhase::OverflowReconciliation
    } else if value == 9 {
        TopologyPhase::OverflowRelationshipNormalization
    } else if value == 10 {
        TopologyPhase::FreelistInspection
    } else if value == 11 {
        TopologyPhase::AllocationReconciliation
    } else if value == 13 {
        TopologyPhase::PointerMapInspection
    } else if value == 14 {
        TopologyPhase::PointerMapValidation
    } else if value == 15 {
        TopologyPhase::PointerMapReconciliation
    } else if value == 16 {
        TopologyPhase::RoleReconciliation
    } else if value == 17 {
        TopologyPhase::SchemaInspection
    } else {
        TopologyPhase::Complete
    }
}

pub fn decode_phase(value: u8) -> (r: TopologyPhase)
    ensures
        r == spec_decode_phase(value),
{
    match value {
        1 => TopologyPhase::BtreeClaimCollection,
        2 => TopologyPhase::BtreeClaimValidation,
        3 => TopologyPhase::BtreeParentReconciliation,
        4 => TopologyPhase::BtreeCycleReconciliation,
        5 => TopologyPhase::BtreeRelationshipNormalization,
        6 => TopologyPhase::BtreeTraversal,
        7 => TopologyPhase::OverflowInspection,
        8 => TopologyPhase::OverflowReconciliation,
        9 => TopologyPhase::OverflowRelationshipNormalization,
        10 => TopologyPhase::FreelistInspection,
        11 => TopologyPhase::AllocationReconciliation,
        13 => TopologyPhase::PointerMapInspection,
        14 => TopologyPhase::PointerMapValidation,
        15 => TopologyPhase::PointerMapReconciliation,
        16 => TopologyPhase::RoleReconciliation,
        17 => TopologyPhase::SchemaInspection,
        _ => TopologyPhase::Complete,
    }
}

/// The phase that runs after `phase`. Freelist inspection runs first of all,
/// before B-tree claim collection; after allocation reconciliation come the
/// pointer-map phases and role reconciliation, which read every claim.
pub open spec fn spec_next_phase(phase: TopologyPhase) -> Option<TopologyPhase> {
    match phase {
        TopologyPhase::FreelistInspection => Some(TopologyPhase::BtreeClaimCollection),
        TopologyPhase::BtreeClaimCollection => Some(TopologyPhase::BtreeClaimValidation),
        TopologyPhase::BtreeClaimValidation => Some(TopologyPhase::BtreeParentReconciliation),
        TopologyPhase::BtreeParentReconciliation => Some(TopologyPhase::BtreeCycleReconciliation),
        TopologyPhase::BtreeCycleReconciliation => Some(TopologyPhase::BtreeRelationshipNormalization),
        TopologyPhase::BtreeRelationshipNormalization => Some(TopologyPhase::BtreeTraversal),
        TopologyPhase::BtreeTraversal => Some(TopologyPhase::OverflowInspection),
        TopologyPhase::OverflowInspection => Some(TopologyPhase::OverflowReconciliation),
        TopologyPhase::OverflowReconciliation => Some(TopologyPhase::OverflowRelationshipNormalization),
        TopologyPhase::OverflowRelationshipNormalization => Some(TopologyPhase::AllocationReconciliation),
        TopologyPhase::AllocationReconciliation => Some(TopologyPhase::PointerMapInspection),
        TopologyPhase::PointerMapInspection => Some(TopologyPhase::PointerMapValidation),
        TopologyPhase::PointerMapValidation => Some(TopologyPhase::PointerMapReconciliation),
        TopologyPhase::PointerMapReconciliation => Some(TopologyPhase::RoleReconciliation),
        TopologyPhase::RoleReconciliation => Some(TopologyPhase::SchemaInspection),
        TopologyPhase::SchemaInspection => Some(TopologyPhase::Complete),
        TopologyPhase::Complete => None,
    }
}

pub fn next_phase(phase: TopologyPhase) -> (r: Option<TopologyPhase>)
    ensures
        r == spec_next_phase(phase),
{
    match phase {
        TopologyPhase::FreelistInspection => Some(TopologyPhase::BtreeClaimCollection),
        TopologyPhase::BtreeClaimCollection => Some(TopologyPhase::BtreeClaimValidation),
        TopologyPhase::BtreeClaimValidation => Some(TopologyPhase::BtreeParentReconciliation),
        TopologyPhase::BtreeParentReconciliation => Some(TopologyPhase::BtreeCycleReconciliation),
        TopologyPhase::BtreeCycleReconciliation => Some(TopologyPhase::BtreeRelationshipNormalization),
        TopologyPhase::BtreeRelationshipNormalization => Some(TopologyPhase::BtreeTraversal),
        TopologyPhase::BtreeTraversal => Some(TopologyPhase::OverflowInspection),
        TopologyPhase::OverflowInspection => Some(TopologyPhase::OverflowReconciliation),
        TopologyPhase::OverflowReconciliation => Some(TopologyPhase::OverflowRelationshipNormalization),
        TopologyPhase::OverflowRelationshipNormalization => Some(TopologyPhase::AllocationReconciliation),
        TopologyPhase::AllocationReconciliation => Some(TopologyPhase::PointerMapInspection),
        TopologyPhase::PointerMapInspection => Some(TopologyPhase::PointerMapValidation),
        TopologyPhase::PointerMapValidation => Some(TopologyPhase::PointerMapReconciliation),
        TopologyPhase::PointerMapReconciliation => Some(TopologyPhase::RoleReconciliation),
        TopologyPhase::RoleReconciliation => Some(TopologyPhase::SchemaInspection),
        TopologyPhase::SchemaInspection => Some(TopologyPhase::Complete),
        TopologyPhase::Complete => None,
    }
}

/// The position of a phase in the run order, Complete last.
pub open spec fn phase_rank(phase: TopologyPhase) -> nat {
    match phase {
        TopologyPhase::FreelistInspection => 0,
        TopologyPhase::BtreeClaimCollection => 1,
        TopologyPhase::BtreeClaimValidation => 2,
        TopologyPhase::BtreeParentReconciliation => 3,
        TopologyPhase::BtreeCycleReconciliation => 4,
        TopologyPhase::BtreeRelationshipNormalization => 5,
        TopologyPhase::BtreeTraversal => 6,
        TopologyPhase::OverflowInspection => 7,
        TopologyPhase::OverflowReconciliation => 8,
        TopologyPhase::OverflowRelationshipNormalization => 9,
        TopologyPhase::AllocationReconciliation => 10,
        TopologyPhase::PointerMapInspection => 11,
        TopologyPhase::PointerMapValidation => 12,
        TopologyPhase::PointerMapReconciliation => 13,
        TopologyPhase::RoleReconciliation => 14,
        TopologyPhase::SchemaInspection => 15,
        TopologyPhase::Complete => 16,
    }
}

/// Phase order is a chain: every phase but Complete has exactly one
/// successor, which comes strictly later, and decoding a phase's stored
/// code gives the phase back.
pub proof fn law_phase_order(phase: TopologyPhase)
    ensures
        spec_next_phase(phase) is None <==> phase == TopologyPhase::Complete,
        spec_next_phase(phase) matches Some(next) ==> phase_rank(next) == phase_rank(phase) + 1,
        spec_decode_phase(phase.spec_code()) == phase,
{
}

impl TraversalBudget {
    pub const DEFAULT_MAX_TOTAL_PAGES: u64 = 1_000_000;

    pub closed spec fn spec_max_btree_pages(self) -> u32 {
        self.btree_depth
    }

    pub closed spec fn spec_max_overflow_pages(self) -> u32 {
        self.overflow_depth
    }

    pub closed spec fn spec_max_total_pages(self) -> u64 {
        self.allocation_ceiling
    }

    /// Creates per-path traversal ceilings with the default aggregate ceiling.
    /// A B-tree ceiling of zero could not retain even the root page.
    pub fn new(max_btree_pages: u32, max_overflow_pages: u32) -> (r: Self)
        requires
            max_btree_pages > 0,
        ensures
            r.spec_max_btree_pages() == max_btree_pages,
            r.spec_max_overflow_pages() == max_overflow_pages,
            r.spec_max_total_pages() == Self::DEFAULT_MAX_TOTAL_PAGES,
    {
        Self {
            btree_depth: max_btree_pages,
            overflow_depth: max_overflow_pages,
            allocation_ceiling: Self::DEFAULT_MAX_TOTAL_PAGES,
        }
    }

    /// Creates per-path and aggregate traversal ceilings. Both the B-tree and
    /// the aggregate ceiling must retain at least one page.
    pub fn with_total_pages(max_btree_pages: u32, max_overflow_pages: u32, max_total_pages: u64) -> (r: Self)
        requires
            max_btree_pages > 0,
            max_total_pages > 0,
        ensures
            r.spec_max_btree_pages() == max_btree_pages,
            r.spec_max_overflow_pages() == max_overflow_pages,
            r.spec_max_total_pages() == max_total_pages,
    {
        Self { btree_depth: max_btree_pages, overflow_depth: max_overflow_pages, allocation_ceiling: max_total_pages }
    }

    pub fn max_btree_pages(self) -> (r: u32)
        ensures
            r == self.spec_max_btree_pages(),
    {
        self.btree_depth
    }

    pub fn max_overflow_pages(self) -> (r: u32)
        ensures
            r == self.spec_max_overflow_pages(),
    {
        self.overflow_depth
    }

    pub fn max_total_pages(self) -> (r: u64)
        ensures
            r == self.spec_max_total_pages(),
    {
        self.allocation_ceiling
    }
}

impl Default for TraversalBudget {
    /// Unbounded per-path ceilings with the default aggregate ceiling.
    fn default() -> (r: Self)
        ensures
            r.spec_max_btree_pages() == u32::MAX,
            r.spec_max_overflow_pages() == u32::MAX,
            r.spec_max_total_pages() == Self::DEFAULT_MAX_TOTAL_PAGES,
    {
        Self::new(u32::MAX, u32::MAX)
    }
}

/// Cooperative control of structural work: an external stop request, the
/// current phase, and its unit counters.
pub struct WorkControl {
    /// The stop observed so far. 0: running; 1: cancelled; 2: operator stop.
    pub stop: u8,
    pub phase: u8,
    pub evaluated: u64,
    pub total: u64,
    pub total_known: bool,
    pub phase_complete: bool,
    pub budget_exhausted: bool,
    pub aggregate_budget_exhausted: bool,
    /// The shared request that other threads may raise; a control made with
    /// `new` has none, and only its own `cancel` and `stop` end its work.
    pub signal: Option<StopSignal>,
}

/// `b` keeps every ending that `a` recorded: a stop, a per-path budget cut
/// and the aggregate ceiling are never withdrawn.
pub open spec fn control_kept(a: WorkControl, b: WorkControl) -> bool {
    &&& a.is_stopped() ==> b.is_stopped()
    &&& a.budget_exhausted ==> b.budget_exhausted
    &&& a.aggregate_budget_exhausted ==> b.aggregate_budget_exhausted
}

impl WorkControl {
    pub open spec fn spec_stop_reason(self) -> Option<TopologyCoverageReason> {
        if self.stop == 1 {
            Some(TopologyCoverageReason::Cancelled)
        } else if self.stop == 2 {
            Some(TopologyCoverageReason::OperatorStop)
        } else {
            None
        }
    }

    pub open spec fn is_stopped(self) -> bool {
        self.spec_stop_reason() is Some
    }

    /// The traversal-level reason for an external stop.
    pub open spec fn spec_traversal_reason(self) -> Option<TraversalStopReason> {
        if self.stop == 1 {
            Some(TraversalStopReason::Cancelled)
        } else if self.stop == 2 {
            Some(TraversalStopReason::OperatorStop)
        } else {
            None
        }
    }

    /// A fresh control at the start of B-tree claim collection.
    pub fn new() -> (r: Self)
        ensures
            r.stop == 0,
            r.phase == TopologyPhase::BtreeClaimCollection.spec_code(),
            r.evaluated == 0,
            r.total == 0,
            !r.total_known,
            !r.phase_complete,
            !r.budget_exhausted,
            !r.aggregate_budget_exhausted,
            r.signal is None,
    {
        WorkControl {
            stop: 0,
            phase: 1,
            evaluated: 0,
            total: 0,
            total_known: false,
            phase_complete: false,
            budget_exhausted: false,
            aggregate_budget_exhausted: false,
            signal: None,
        }
    }

    /// A fresh control that also observes `signal`.
    pub fn with_signal(signal: StopSignal) -> (r: Self)
        ensures
            r == Self::initial(Some(signal)),
    {
        WorkControl {
            stop: 0,
            phase: 1,
            evaluated: 0,
            total: 0,
            total_known: false,
            phase_complete: false,
            budget_exhausted: false,
            aggregate_budget_exhausted: false,
            signal: Some(signal),
        }
    }

    pub open spec fn initial(signal: Option<StopSignal>) -> Self {
        WorkControl {
            stop: 0,
            phase: 1,
            evaluated: 0,
            total: 0,
            total_known: false,
            phase_complete: false,
            budget_exhausted: false,
            aggregate_budget_exhausted: false,
            signal,
        }
    }

    /// Returns the control to its initial state; the shared request is kept,
    /// so a stop raised elsewhere is observed again on the next check.
    pub fn reset(&mut self)
        ensures
            *final(self) == Self::initial(old(self).signal),
    {
        self.stop = 0;
        self.phase = 1;
        self.evaluated = 0;
        self.total = 0;
        self.total_known = false;
        self.phase_complete = false;
        self.budget_exhausted = false;
        self.aggregate_budget_exhausted = false;
    }

    /// Takes in a stop request raised elsewhere. An observed stop is never withdrawn.
    pub fn refresh(&mut self)
        ensures
            old(self).stop == 0 ==> final(self).stop <= 2,
            old(self).stop != 0 ==> *final(self) == *old(self),
            old(self).stop == 0 ==> *final(self) == (WorkControl { stop: final(self).stop, ..*old(self) }),
            old(self).signal is None ==> *final(self) == *old(self),
    {
        if self.stop == 0 {
            let observed = match &self.signal {
                Some(signal) => signal.observe(),
                None => 0,
            };
            if observed == 1 || observed == 2 {
                self.stop = observed;
            }
        }
    }

    /// Requests cancellation.
    pub fn cancel(&mut self)
        ensures
            *final(self) == (WorkControl { stop: 1, ..*old(self) }),
    {
        self.stop = 1;
    }

    /// Records an operator stop.
    pub fn stop(&mut self)
        ensures
            *final(self) == (WorkControl { stop: 2, ..*old(self) }),
    {
        self.stop = 2;
    }

    pub fn stop_reason(&self) -> (r: Option<TopologyCoverageReason>)
        ensures
            r == self.spec_stop_reason(),
    {
        if self.stop == 1 {
            Some(TopologyCoverageReason::Cancelled)
        } else if self.stop == 2 {
            Some(TopologyCoverageReason::OperatorStop)
        } else {
            None
        }
    }

    pub fn traversal_reason(&self) -> (r: Option<TraversalStopReason>)
        ensures
            r == self.spec_traversal_reason(),
    {
        match self.stop_reason() {
            Some(TopologyCoverageReason::Cancelled) => Some(TraversalStopReason::Cancelled),
            Some(TopologyCoverageReason::OperatorStop) => Some(TraversalStopReason::OperatorStop),
            _ => None,
        }
    }

    /// Whether work must stop, taking in any request raised elsewhere.
    pub fn stopped(&mut self) -> (r: bool)
        ensures
            r == final(self).is_stopped(),
            old(self).stop == 0 ==> final(self).stop <= 2,
            old(self).stop != 0 ==> *final(self) == *old(self),
            old(self).stop == 0 ==> *final(self) == (WorkControl { stop: final(self).stop, ..*old(self) }),
            old(self).signal is None ==> *final(self) == *old(self),
    {
        self.refresh();
        self.stop_reason().is_some()
    }

    /// Records that a per-path ceiling stopped some traversal.
    pub fn mark_budget_exhausted(&mut self)
        ensures
            *final(self) == (WorkControl { budget_exhausted: true, ..*old(self) }),
    {
        self.budget_exhausted = true;
    }

    /// Records that the aggregate ceiling stopped traversal work altogether.
    pub fn mark_aggregate_budget_exhausted(&mut self)
        ensures
            *final(self) == (WorkControl { budget_exhausted: true, aggregate_budget_exhausted: true, ..*old(self) }),
    {
        self.mark_budget_exhausted();
        self.aggregate_budget_exhausted = true;
    }

    pub fn is_aggregate_budget_exhausted(&self) -> (r: bool)
        ensures
            r == self.aggregate_budget_exhausted,
    {
        self.aggregate_budget_exhausted
    }

    /// Starts counting `phase`, unless work has been stopped: a stop freezes
    /// the boundary at which it landed.
    pub fn begin_phase(&mut self, phase: TopologyPhase, total: Option<u64>)
        ensures
            old(self).stop != 0 ==> final(self).stop == old(self).stop,
            old(self).stop == 0 ==> final(self).stop <= 2,
            old(self).signal is None ==> final(self).stop == old(self).stop,
            final(self).is_stopped() ==> *final(self) == (WorkControl { stop: final(self).stop, ..*old(self) }),
            !final(self).is_stopped() ==> *final(self) == (WorkControl {
                stop: final(self).stop,
                phase: phase.spec_code(),
                evaluated: 0,
                total: match total {
                    Some(t) => t,
                    None => 0,
                },
                total_known: total is Some,
                phase_complete: false,
                ..*old(self)
            }),
    {
        if self.stopped() {
            return;
        }
        self.phase = phase.code();
        self.evaluated = 0;
        self.total = match total {
            Some(t) => t,
            None => 0,
        };
        self.total_known = total.is_some();
        self.phase_complete = false;
    }

    /// Counts one evaluated unit of `phase`, when it is the current phase.
    pub fn advance(&mut self, phase: TopologyPhase)
        ensures
            *final(self) == (WorkControl {
                evaluated: if old(self).phase == phase.spec_code() && old(self).evaluated < u64::MAX {
                    (old(self).evaluated + 1) as u64
                } else {
                    old(self).evaluated
                },
                ..*old(self)
            }),
    {
        if self.phase == phase.code() && self.evaluated < u64::MAX {
            self.evaluated = self.evaluated + 1;
        }
    }

    /// Marks `phase` finished, when it is the current phase.
    pub fn finish_phase(&mut self, phase: TopologyPhase)
        ensures
            *final(self) == (WorkControl {
                phase_complete: old(self).phase_complete || old(self).phase == phase.spec_code(),
                ..*old(self)
            }),
    {
        if self.phase == phase.code() {
            self.phase_complete = true;
        }
    }

    /// Enters the Complete phase, unless work was stopped or the aggregate
    /// ceiling cut it short.
    pub fn complete(&mut self)
        ensures
            old(self).stop != 0 ==> final(self).stop == old(self).stop,
            old(self).stop == 0 ==> final(self).stop <= 2,
            old(self).signal is None ==> final(self).stop == old(self).stop,
            (final(self).is_stopped() || old(self).aggregate_budget_exhausted) ==> *final(self) == (WorkControl { stop: final(self).stop, ..*old(self) }),
            !(final(self).is_stopped() || old(self).aggregate_budget_exhausted) ==> *final(self) == (WorkControl {
                stop: final(self).stop,
                phase: TopologyPhase::Complete.spec_code(),
                evaluated: 0,
                total: 0,
                total_known: true,
                phase_complete: true,
                ..*old(self)
            }),
    {
        if !self.stopped() && !self.aggregate_budget_exhausted {
            self.phase = TopologyPhase::Complete.code();
            self.evaluated = 0;
            self.total = 0;
            self.total_known = true;
            self.phase_complete = true;
        }
    }

    /// The coverage account that this control describes.
    pub open spec fn spec_coverage(self, budget: TraversalBudget) -> TopologyCoverage {
        let phase = spec_decode_phase(self.phase);
        let total = if self.total_known { Some(self.total) } else { None };
        let phase_complete = self.phase_complete || (self.total_known && self.evaluated >= self.total);
        TopologyCoverage {
            reason: match self.spec_stop_reason() {
                Some(r) => r,
                None => if self.budget_exhausted {
                    TopologyCoverageReason::Budget
                } else {
                    TopologyCoverageReason::Complete
                },
            },
            phase,
            evaluated: self.evaluated,
            total,
            next: if !phase_complete && phase != TopologyPhase::Complete && (!self.total_known || self.evaluated < self.total)
                && self.evaluated < u64::MAX {
                Some((self.evaluated + 1) as u64)
            } else {
                None
            },
            remainder: if self.total_known {
                Some(if self.total >= self.evaluated { (self.total - self.evaluated) as u64 } else { 0 })
            } else {
                None
            },
            next_phase: if phase_complete { spec_next_phase(phase) } else { None },
            traversal_budget: budget,
        }
    }

    /// Reports where structural work stands.
    pub fn coverage(&self, budget: TraversalBudget) -> (r: TopologyCoverage)
        ensures
            r == self.spec_coverage(budget),
    {
        let evaluated = self.evaluated;
        let phase = decode_phase(self.phase);
        let total = if self.total_known { Some(self.total) } else { None };
        let phase_complete = self.phase_complete || (self.total_known && evaluated >= self.total);
        let reason = match self.stop_reason() {
            Some(r) => r,
            None => if self.budget_exhausted {
                TopologyCoverageReason::Budget
            } else {
                TopologyCoverageReason::Complete
            },
        };
        let at_end = match phase {
            TopologyPhase::Complete => true,
            _ => false,
        };
        let next = if !phase_complete && !at_end && (!self.total_known || evaluated < self.total) && evaluated < u64::MAX {
            Some(evaluated + 1)
        } else {
            None
        };
        let remainder = if self.total_known {
            Some(if self.total >= evaluated { self.total - evaluated } else { 0 })
        } else {
            None
        };
        let following = if phase_complete { next_phase(phase) } else { None };
        TopologyCoverage {
            reason,
            phase,
            evaluated,
            total,
            next,
            remainder,
            next_phase: following,
            traversal_budget: budget,
        }
    }
}

/// A stopped control reports the stop as the reason of its coverage, which is
/// then neither complete nor a budget cut-off.
pub proof fn law_stop_freezes_boundary(control: WorkControl, budget: TraversalBudget)
    requires
        control.is_stopped(),
    ensures
        control.spec_coverage(budget).reason == control.spec_stop_reason().unwrap(),
        control.spec_coverage(budget).reason != TopologyCoverageReason::Complete,
        control.spec_coverage(budget).reason != TopologyCoverageReason::Budget,
{
}

/// A completed run reports Complete as its phase, with nothing left to do;
/// its reason is Budget exactly when some per-path ceiling stopped a traversal.
pub proof fn law_completion_account(control: WorkControl, budget: TraversalBudget)
    requires
        !control.is_stopped(),
        !control.aggregate_budget_exhausted,
    ensures
        ({
            let done = WorkControl {
                phase: TopologyPhase::Complete.spec_code(),
                evaluated: 0,
                total: 0,
                total_known: true,
                phase_complete: true,
                ..control
            };
            let coverage = done.spec_coverage(budget);
            &&& coverage.phase == TopologyPhase::Complete
            &&& coverage.next is None
            &&& coverage.remainder == Some(0u64)
            &&& coverage.next_phase is None
            &&& (coverage.reason == TopologyCoverageReason::Budget <==> control.budget_exhausted)
            &&& (coverage.reason == TopologyCoverageReason::Complete <==> !control.budget_exhausted)
        }),
{
}

/// Adds `requested` pages to the traversal total when the aggregate ceiling allows.
pub fn reserve_traversal_pages(used: &mut u64, requested: u64, maximum: u64) -> (r: bool)
    ensures
        r == (*old(used) + requested <= maximum),
        r ==> *final(used) == *old(used) + requested,
        !r ==> *final(used) == *old(used),
{
    if *used > u64::MAX - requested {
        return false;
    }
    let updated = *used + requested;
    if updated > maximum {
        return false;
    }
    *used = updated;
    true
}

/// B-tree child links keep to one tree type: table interiors point to table
/// pages, index interiors to index pages.
pub open spec fn spec_compatible_btree_kinds(source: Option<Kind>, target: Option<Kind>) -> bool {
    match (source, target) {
        (Some(Kind::TableInterior), Some(Kind::TableInterior)) => true,
        (Some(Kind::TableInterior), Some(Kind::TableLeaf)) => true,
        (Some(Kind::IndexInterior), Some(Kind::IndexInterior)) => true,
        (Some(Kind::IndexInterior), Some(Kind::IndexLeaf)) => true,
        _ => false,
    }
}

/// A child link stays within one tree type: a table interior page accepts a
/// table interior or table leaf child, an index interior page an index
/// interior or index leaf child, and nothing else is accepted; in particular
/// no leaf has children and no link crosses from a table to an index tree.
pub proof fn law_child_kinds_keep_tree_type(source: Option<Kind>, target: Option<Kind>)
    ensures
        spec_compatible_btree_kinds(Some(Kind::TableInterior), Some(Kind::TableInterior)),
        spec_compatible_btree_kinds(Some(Kind::TableInterior), Some(Kind::TableLeaf)),
        spec_compatible_btree_kinds(Some(Kind::IndexInterior), Some(Kind::IndexInterior)),
        spec_compatible_btree_kinds(Some(Kind::IndexInterior), Some(Kind::IndexLeaf)),
        spec_compatible_btree_kinds(source, target) ==> (source == Some(Kind::TableInterior) || source == Some(Kind::IndexInterior)) && target is Some,
        spec_compatible_btree_kinds(source, target) ==> (source == Some(Kind::TableInterior) <==> (target == Some(Kind::TableInterior) || target == Some(Kind::TableLeaf))),
{
}

pub fn compatible_btree_kinds(source: Option<Kind>, target: Option<Kind>) -> (r: bool)
    ensures
        r == spec_compatible_btree_kinds(source, target),
        r <==> ((source == Some(Kind::TableInterior) && (target == Some(Kind::TableInterior) || target == Some(Kind::TableLeaf)))
            || (source == Some(Kind::IndexInterior) && (target == Some(Kind::IndexInterior) || target == Some(Kind::IndexLeaf)))),
{
    match (source, target) {
        (Some(Kind::TableInterior), Some(Kind::TableInterior)) => true,
        (Some(Kind::TableInterior), Some(Kind::TableLeaf)) => true,
        (Some(Kind::IndexInterior), Some(Kind::IndexInterior)) => true,
        (Some(Kind::IndexInterior), Some(Kind::IndexLeaf)) => true,
        _ => false,
    }
}

pub open spec fn spec_source_page(source: EntityIdentity) -> u32 {
    match source {
        EntityIdentity::Page { page_number } => page_number,
        EntityIdentity::Cell { page_number, .. } => page_number,
    }
}

/// The page that holds a relationship's source.
pub fn source_page(source: &EntityIdentity) -> (r: u32)
    ensures
        r == spec_source_page(*source),
{
    match source {
        EntityIdentity::Page { page_number } => *page_number,
        EntityIdentity::Cell { page_number, .. } => *page_number,
    }
}

/// Everything structural inspection established: the freelist account and
/// all claims, relationships, traversals and diagnostics, with coverage.
pub struct Topology {
    pub freelist: FreelistEvidence,
    pub claims: Vec<RelationshipClaim>,
    pub relationships: Vec<Relationship>,
    pub traversals: Vec<Traversal>,
    pub diagnostics: Vec<StructuralDiagnostic>,
    pub coverage: TopologyCoverage,
    /// The pointer map of an auto-vacuum database, once inspected.
    pub pointer_map: Option<PointerMapEvidence>,
    /// The reconciled role of each inventoried page, by page number less one.
    pub classifications: Vec<PageClassification>,
}

impl Topology {
    /// The topology of a file without a readable database: nothing claimed,
    /// and complete coverage of no work.
    pub fn empty(budget: TraversalBudget) -> (r: Self)
        ensures
            r.freelist.first_trunk is None,
            r.freelist.declared_count is None,
            r.freelist.trunks@.len() == 0,
            r.freelist.coverage.reason == crate::freelist::FreelistCoverageReason::NotInspected,
            r.claims@.len() == 0,
            r.relationships@.len() == 0,
            r.traversals@.len() == 0,
            r.diagnostics@.len() == 0,
            r.classifications@.len() == 0,
            r.pointer_map is None,
            r.coverage == (TopologyCoverage {
                reason: TopologyCoverageReason::Complete,
                phase: TopologyPhase::Complete,
                evaluated: 0,
                total: Some(0),
                next: None,
                remainder: Some(0),
                next_phase: None,
                traversal_budget: budget,
            }),
    {
        Topology {
            freelist: FreelistEvidence::uninspected(),
            claims: Vec::new(),
            relationships: Vec::new(),
            traversals: Vec::new(),
            diagnostics: Vec::new(),
            coverage: TopologyCoverage {
                reason: TopologyCoverageReason::Complete,
                phase: TopologyPhase::Complete,
                evaluated: 0,
                total: Some(0),
                next: None,
                remainder: Some(0),
                next_phase: None,
                traversal_budget: budget,
            },
            pointer_map: None,
            classifications: Vec::new(),
        }
    }
}

} // verus!
