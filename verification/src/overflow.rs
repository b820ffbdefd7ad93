//! Overflow chains: the pages that carry the payload a cell cannot hold
//! locally, linked by the next-page pointer in each page's first four bytes.
use vstd::prelude::*;
use std::collections::HashSet;

use crate::btree::{ByteRange, CellDetail, CellDiagnostic, CellView, PageDiagnostic};
use crate::bytes::{be32, dword};
use crate::freelist::{keeps_shape, lemma_distinct_pages_bounded, numbered, read_failed};
use crate::links::{conflicting_claims_bounded, downgrade_validated_claims, downgraded, listed};
use crate::geometry::{geometry_wf, DatabaseGeometry};
use crate::inventory::{cell_total, PageEntity};
use crate::topology::control_kept;
use crate::topology::{
    TraversalBudget,
    diagnostic, spec_diagnostic, ClaimId, Containment, DiagnosticCode, EntityIdentity, PageIdentity, PhysicalEvidence,
    RelationshipClaim, RelationshipKind, RelationshipState, StructuralDiagnostic, TopologyPhase, Traversal, TraversalKind,
    TraversalStop, TraversalStopReason, TraversalView, ValidationRule, WorkControl,
};

verus! {

/// The big-endian 32-bit value at byte `at` of the image, when it is there.
pub open spec fn spec_read_u32(image: Seq<u8>, at: int) -> Option<u32> {
    if 0 <= at && at + 4 <= image.len() {
        Some(be32(image, at) as u32)
    } else {
        None
    }
}

/// Reads the big-endian 32-bit value at byte `at` of the image.
pub fn read_u32(image: &[u8], at: u64) -> (r: Option<u32>)
    ensures
        r == spec_read_u32(image@, at as int),
{
    if at > image.len() as u64 || image.len() as u64 - at < 4 {
        return None;
    }
    Some(dword(image, at as usize))
}

/// `claim` with its state and stop reason replaced.
pub open spec fn with_state(claim: RelationshipClaim, state: RelationshipState, reason: TraversalStopReason) -> RelationshipClaim {
    RelationshipClaim { state, stop_reason: Some(reason), ..claim }
}

/// Marks `claim` with `state` and `reason`, and reports `code` against it.
pub fn invalidate_overflow_claim(
    claim: &mut RelationshipClaim,
    state: RelationshipState,
    reason: TraversalStopReason,
    code: DiagnosticCode,
    diagnostics: &mut Vec<StructuralDiagnostic>,
)
    ensures
        *final(claim) == with_state(*old(claim), state, reason),
        final(diagnostics)@.len() == old(diagnostics)@.len() + 1,
        final(diagnostics)@.subrange(0, old(diagnostics)@.len() as int) == old(diagnostics)@,
        final(diagnostics)@.last()@ == spec_diagnostic(code, *final(claim), Containment::TraversalStopped),
{
    claim.state = state;
    claim.stop_reason = Some(reason);
    let found = diagnostic(code, claim, Containment::TraversalStopped);
    diagnostics.push(found);
    assert(diagnostics@.subrange(0, old(diagnostics)@.len() as int) =~= old(diagnostics)@);
}

/// A page that an overflow pointer may validly name: inside the database,
/// inventoried, readable, and holding neither a B-tree header nor a freelist role.
pub open spec fn free_overflow_page(t: u32, page_count: u32, pages: Seq<PageEntity>) -> bool {
    &&& 1 <= t <= page_count
    &&& t <= pages.len()
    &&& !pages[t - 1].detail@.diagnostics.contains(PageDiagnostic::PageReadFailed)
    &&& pages[t - 1].detail@.kind is None
    &&& pages[t - 1].detail@.allocation_role is None
}

/// How an overflow pointer fares against the inventory: the claim with its
/// new state and reason, and the finding reported against it, if any.
pub open spec fn spec_validate_overflow_target(
    page_count: u32,
    pages: Seq<PageEntity>,
    claim: RelationshipClaim,
    missing: DiagnosticCode,
    out_of_range: DiagnosticCode,
) -> (RelationshipClaim, Option<DiagnosticCode>) {
    match claim.target {
        None => (with_state(claim, RelationshipState::Invalid, TraversalStopReason::InvalidReference), Some(DiagnosticCode::OverflowInvalidPage)),
        Some(target) => {
            let t = target.page_number;
            if t > page_count {
                (with_state(claim, RelationshipState::Unresolved, TraversalStopReason::OutOfRange), Some(out_of_range))
            } else if t > pages.len() {
                (with_state(claim, RelationshipState::Unresolved, TraversalStopReason::CoverageStop), None)
            } else if pages[t - 1].detail@.diagnostics.contains(PageDiagnostic::PageReadFailed) {
                (with_state(claim, RelationshipState::Unresolved, TraversalStopReason::MissingTarget), Some(missing))
            } else if pages[t - 1].detail@.kind is Some || pages[t - 1].detail@.allocation_role is Some {
                (with_state(claim, RelationshipState::Conflicting, TraversalStopReason::TypeMismatch), Some(DiagnosticCode::OverflowPageTypeConflict))
            } else {
                (RelationshipClaim { state: RelationshipState::Validated, ..claim }, None)
            }
        },
    }
}

/// Validates the page that an overflow pointer names.
pub fn validate_overflow_target(
    page_count: u32,
    pages: &Vec<PageEntity>,
    claim: &mut RelationshipClaim,
    missing: DiagnosticCode,
    out_of_range: DiagnosticCode,
    diagnostics: &mut Vec<StructuralDiagnostic>,
)
    requires
        old(claim).target matches Some(t) ==> t.page_number >= 1,
    ensures
        *final(claim) == spec_validate_overflow_target(page_count, pages@, *old(claim), missing, out_of_range).0,
        match spec_validate_overflow_target(page_count, pages@, *old(claim), missing, out_of_range).1 {
            Some(code) => {
                &&& final(diagnostics)@.len() == old(diagnostics)@.len() + 1
                &&& final(diagnostics)@.subrange(0, old(diagnostics)@.len() as int) == old(diagnostics)@
                &&& final(diagnostics)@.last()@ == spec_diagnostic(code, *final(claim), Containment::TraversalStopped)
            },
            None => final(diagnostics)@ == old(diagnostics)@,
        },
        final(claim).state == RelationshipState::Validated ==> free_overflow_page(final(claim).target.unwrap().page_number, page_count, pages@),
{
    let target = match claim.target {
        Some(t) => t.page_number,
        None => {
            invalidate_overflow_claim(claim, RelationshipState::Invalid, TraversalStopReason::InvalidReference, DiagnosticCode::OverflowInvalidPage, diagnostics);
            return;
        },
    };
    if target > page_count {
        invalidate_overflow_claim(claim, RelationshipState::Unresolved, TraversalStopReason::OutOfRange, out_of_range, diagnostics);
        return;
    }
    if target as usize > pages.len() {
        claim.state = RelationshipState::Unresolved;
        claim.stop_reason = Some(TraversalStopReason::CoverageStop);
        return;
    }
    let page = &pages[(target - 1) as usize];
    if read_failed(&page.detail.diagnostics) {
        invalidate_overflow_claim(claim, RelationshipState::Unresolved, TraversalStopReason::MissingTarget, missing, diagnostics);
        return;
    }
    if page.detail.kind.is_some() || page.detail.allocation_role.is_some() {
        invalidate_overflow_claim(claim, RelationshipState::Conflicting, TraversalStopReason::TypeMismatch, DiagnosticCode::OverflowPageTypeConflict, diagnostics);
    } else {
        claim.state = RelationshipState::Validated;
    }
}

/// An overflow traversal from `origin` over `prefix` that stopped at `claim` for `reason`.
pub open spec fn spec_stopped_traversal(origin: EntityIdentity, prefix: Seq<PageIdentity>, claim: RelationshipClaim, reason: TraversalStopReason) -> TraversalView {
    TraversalView {
        kind: TraversalKind::Overflow,
        origin,
        validated_prefix: prefix,
        stop: Some(TraversalStop { reason, claim_id: claim.id, intended_target: claim.target }),
    }
}

pub fn stopped_overflow_traversal_with_reason(
    origin: EntityIdentity,
    validated_prefix: Vec<PageIdentity>,
    claim: &RelationshipClaim,
    reason: TraversalStopReason,
) -> (r: Traversal)
    ensures
        r@ == spec_stopped_traversal(origin, validated_prefix@, *claim, reason),
{
    Traversal {
        kind: TraversalKind::Overflow,
        origin,
        validated_prefix,
        stop: Some(TraversalStop { reason, claim_id: claim.id, intended_target: claim.target }),
    }
}

/// The stop reason a non-validated claim carries; one without a reason is an invalid reference.
pub open spec fn spec_stop_reason(claim: RelationshipClaim) -> TraversalStopReason {
    match claim.stop_reason {
        Some(r) => r,
        None => TraversalStopReason::InvalidReference,
    }
}

pub fn stop_reason(claim: &RelationshipClaim) -> (r: TraversalStopReason)
    ensures
        r == spec_stop_reason(*claim),
{
    match claim.stop_reason {
        Some(r) => r,
        None => TraversalStopReason::InvalidReference,
    }
}

/// An overflow traversal stopped at `claim` for the reason the claim carries.
pub fn stopped_overflow_traversal(origin: EntityIdentity, validated_prefix: Vec<PageIdentity>, claim: &RelationshipClaim) -> (r: Traversal)
    ensures
        r@ == spec_stopped_traversal(origin, validated_prefix@, *claim, spec_stop_reason(*claim)),
{
    stopped_overflow_traversal_with_reason(origin, validated_prefix, claim, stop_reason(claim))
}

/// A complete overflow traversal from `origin` over `prefix`.
pub fn complete_overflow(origin: EntityIdentity, prefix: Vec<PageIdentity>) -> (r: Traversal)
    ensures
        r@ == (TraversalView { kind: TraversalKind::Overflow, origin, validated_prefix: prefix@, stop: None }),
{
    Traversal { kind: TraversalKind::Overflow, origin, validated_prefix: prefix, stop: None }
}

/// Overflow claims, traversals and findings, with the claim already made for
/// each page's next-page pointer.
pub struct OverflowTopology {
    pub claims: Vec<RelationshipClaim>,
    pub traversals: Vec<Traversal>,
    pub diagnostics: Vec<StructuralDiagnostic>,
    /// For each page number, the claim of that page's next-page pointer.
    pub page_claims: Vec<Option<usize>>,
    /// Pages followed so far by all traversals together.
    pub traversal_pages: u64,
}

/// The main-file offset of the next-page pointer of overflow page `page`.
pub open spec fn next_pointer_offset(geometry: DatabaseGeometry, page: u32) -> int {
    (page - 1) * geometry.page_size
}

/// The page named by the next-page pointer of overflow page `page`; zero and
/// unreadable pointers name none.
pub open spec fn next_target(image: Seq<u8>, geometry: DatabaseGeometry, page: u32) -> Option<PageIdentity> {
    match spec_read_u32(image, next_pointer_offset(geometry, page)) {
        Some(n) => if n != 0 { Some(PageIdentity { page_number: n }) } else { None },
        None => None,
    }
}

/// The claim made by the next-page pointer of overflow page `page`, before validation.
pub open spec fn next_claim_base(geometry: DatabaseGeometry, image: Seq<u8>, page: u32) -> RelationshipClaim {
    RelationshipClaim {
        id: ClaimId::OverflowPage { page_number: page },
        kind: RelationshipKind::Overflow,
        source: EntityIdentity::Page { page_number: page },
        target: next_target(image, geometry, page),
        evidence: PhysicalEvidence {
            page: PageIdentity { page_number: page },
            range: ByteRange { page_offset: 0, file_offset: next_pointer_offset(geometry, page) as u64, length: 4 },
            validation_rule: ValidationRule::OverflowNextPage,
        },
        state: RelationshipState::Unresolved,
        stop_reason: None,
    }
}

/// The validated form of that claim and the finding it raises: an unreadable
/// pointer is invalid, a zero pointer ends the chain, any other is validated
/// against the inventory.
pub open spec fn spec_next_claim(geometry: DatabaseGeometry, image: Seq<u8>, pages: Seq<PageEntity>, page: u32) -> (RelationshipClaim, Option<DiagnosticCode>) {
    let base = next_claim_base(geometry, image, page);
    match spec_read_u32(image, next_pointer_offset(geometry, page)) {
        None => (with_state(base, RelationshipState::Invalid, TraversalStopReason::InvalidReference), Some(DiagnosticCode::OverflowPointerReadFailed)),
        Some(n) => if n == 0 {
            (RelationshipClaim { state: RelationshipState::Terminal, ..base }, None)
        } else {
            spec_validate_overflow_target(geometry.page_count, pages, base, DiagnosticCode::OverflowNextPageMissing, DiagnosticCode::OverflowNextPageOutOfRange)
        },
    }
}

impl OverflowTopology {
    /// Overflow claims read the image where their evidence says, validated
    /// claims name free overflow pages, and each page has at most one
    /// next-page claim.
    pub open spec fn wf(&self, image: Seq<u8>, geometry: DatabaseGeometry, pages: Seq<PageEntity>) -> bool {
        let claims = self.claims@;
        &&& self.page_claims@.len() == pages.len() + 1
        &&& self.page_claims@.len() <= u32::MAX
        &&& forall|p: int| 0 <= p < self.page_claims@.len() && #[trigger] self.page_claims@[p] is Some ==> {
            &&& p >= 1
            &&& self.page_claims@[p].unwrap() < claims.len()
            &&& claims[self.page_claims@[p].unwrap() as int].id == (ClaimId::OverflowPage { page_number: p as u32 })
            &&& claims[self.page_claims@[p].unwrap() as int].target == next_target(image, geometry, p as u32)
            &&& claims[self.page_claims@[p].unwrap() as int].state == RelationshipState::Terminal
                ==> spec_read_u32(image, next_pointer_offset(geometry, p as u32)) == Some(0u32)
        }
        &&& forall|i: int| 0 <= i < claims.len() && #[trigger] claims[i].state == RelationshipState::Validated ==> {
            &&& claims[i].target is Some
            &&& free_overflow_page(claims[i].target.unwrap().page_number, geometry.page_count, pages)
            &&& claims[i].stop_reason is None
        }
        &&& forall|i: int| 0 <= i < claims.len() ==> ((#[trigger] claims[i]).target matches Some(x) ==> x.page_number >= 1)
        &&& forall|i: int| 0 <= i < claims.len() ==> (#[trigger] claims[i]).kind == RelationshipKind::Overflow
    }
}

/// The claim of overflow page `current`'s next-page pointer: the one already
/// made for that page, or a new one read from the image and validated.
pub fn overflow_next_claim(image: &[u8], geometry: &DatabaseGeometry, pages: &Vec<PageEntity>, current: u32, topology: &mut OverflowTopology) -> (index: usize)
    requires
        old(topology).wf(image@, *geometry, pages@),
        geometry_wf(*geometry),
        1 <= current <= pages@.len(),
    ensures
        final(topology).wf(image@, *geometry, pages@),
        index < final(topology).claims@.len(),
        final(topology).page_claims@[current as int] == Some(index),
        final(topology).claims@[index as int].id == (ClaimId::OverflowPage { page_number: current }),
        final(topology).claims@[index as int].target == next_target(image@, *geometry, current),
        old(topology).page_claims@[current as int] matches Some(i) ==> index == i && *final(topology) == *old(topology),
        old(topology).page_claims@[current as int] is None ==> {
            &&& index == old(topology).claims@.len()
            &&& final(topology).claims@ == old(topology).claims@.push(spec_next_claim(*geometry, image@, pages@, current).0)
            &&& final(topology).traversals == old(topology).traversals
            &&& final(topology).traversal_pages == old(topology).traversal_pages
            &&& final(topology).page_claims@ == old(topology).page_claims@.update(current as int, Some(index))
            &&& match spec_next_claim(*geometry, image@, pages@, current).1 {
                Some(code) => final(topology).diagnostics@.len() == old(topology).diagnostics@.len() + 1
                    && final(topology).diagnostics@.last()@ == spec_diagnostic(code, final(topology).claims@[index as int], Containment::TraversalStopped),
                None => final(topology).diagnostics@ == old(topology).diagnostics@,
            }
        },
{
    if let Some(index) = topology.page_claims[current as usize] {
        return index;
    }
    proof {
        assert((current - 1) * geometry.page_size <= 0xffff_ffffu64 * 65536) by (nonlinear_arith)
            requires current >= 1, current <= 0xffff_ffff, geometry.page_size <= 65536;
    }
    let at = (current - 1) as u64 * geometry.page_size as u64;
    let next = read_u32(image, at);
    let mut claim = RelationshipClaim {
        id: ClaimId::OverflowPage { page_number: current },
        kind: RelationshipKind::Overflow,
        source: EntityIdentity::Page { page_number: current },
        target: match next {
            Some(n) => if n != 0 { Some(PageIdentity { page_number: n }) } else { None },
            None => None,
        },
        evidence: PhysicalEvidence {
            page: PageIdentity { page_number: current },
            range: ByteRange { page_offset: 0, file_offset: at, length: 4 },
            validation_rule: ValidationRule::OverflowNextPage,
        },
        state: RelationshipState::Unresolved,
        stop_reason: None,
    };
    assert(claim == next_claim_base(*geometry, image@, current));
    match next {
        None => invalidate_overflow_claim(&mut claim, RelationshipState::Invalid, TraversalStopReason::InvalidReference, DiagnosticCode::OverflowPointerReadFailed, &mut topology.diagnostics),
        Some(0) => {
            claim.state = RelationshipState::Terminal;
        },
        Some(_) => {
            validate_overflow_target(geometry.page_count, pages, &mut claim, DiagnosticCode::OverflowNextPageMissing, DiagnosticCode::OverflowNextPageOutOfRange, &mut topology.diagnostics);
        },
    }
    let index = topology.claims.len();
    topology.claims.push(claim);
    topology.page_claims.set(current as usize, Some(index));
    proof {
        let claims = topology.claims@;
        assert forall|p: int| 0 <= p < topology.page_claims@.len() && #[trigger] topology.page_claims@[p] is Some implies {
            &&& p >= 1
            &&& topology.page_claims@[p].unwrap() < claims.len()
            &&& claims[topology.page_claims@[p].unwrap() as int].id == (ClaimId::OverflowPage { page_number: p as u32 })
            &&& claims[topology.page_claims@[p].unwrap() as int].target == next_target(image@, *geometry, p as u32)
            &&& claims[topology.page_claims@[p].unwrap() as int].state == RelationshipState::Terminal
                ==> spec_read_u32(image@, next_pointer_offset(*geometry, p as u32)) == Some(0u32)
        } by {
            if p != current {
                assert(old(topology).page_claims@[p] is Some);
                assert(claims[topology.page_claims@[p].unwrap() as int] == old(topology).claims@[topology.page_claims@[p].unwrap() as int]);
            }
        }
        assert forall|i: int| 0 <= i < claims.len() && #[trigger] claims[i].state == RelationshipState::Validated implies {
            &&& claims[i].target is Some
            &&& free_overflow_page(claims[i].target.unwrap().page_number, geometry.page_count, pages@)
            &&& claims[i].stop_reason is None
        } by {
            if i < index {
                assert(claims[i] == old(topology).claims@[i]);
            }
        }
        assert forall|i: int| 0 <= i < claims.len() implies ((#[trigger] claims[i]).target matches Some(x) ==> x.page_number >= 1) by {
            if i < index {
                assert(claims[i] == old(topology).claims@[i]);
            }
        }
        assert forall|i: int| 0 <= i < claims.len() implies (#[trigger] claims[i]).kind == RelationshipKind::Overflow by {
            if i < index {
                assert(claims[i] == old(topology).claims@[i]);
            }
        }
    }
    index
}

/// `prefix` is an overflow chain from page `first`: it starts there, each
/// page's next-page pointer names the page after it, every page is a free
/// overflow page, and no page repeats.
pub open spec fn overflow_chain(prefix: Seq<PageIdentity>, first: u32, image: Seq<u8>, geometry: DatabaseGeometry, pages: Seq<PageEntity>) -> bool {
    &&& prefix.len() >= 1 ==> prefix[0].page_number == first
    &&& forall|k: int| 0 <= k < prefix.len() - 1 ==> #[trigger] next_target(image, geometry, prefix[k].page_number) == Some(prefix[k + 1])
    &&& forall|k: int| 0 <= k < prefix.len() ==> free_overflow_page(#[trigger] prefix[k].page_number, geometry.page_count, pages)
    &&& forall|a: int, b: int| 0 <= a < b < prefix.len() ==> #[trigger] prefix[a] != #[trigger] prefix[b]
}

/// Whether some page of `prefix` is page `page`.
pub open spec fn in_prefix(prefix: Seq<PageIdentity>, page: u32) -> bool {
    exists|k: int| 0 <= k < prefix.len() && #[trigger] prefix[k].page_number == page
}

/// The payload bytes that `count` overflow pages of `per_page` bytes each carry.
pub open spec fn chain_capacity(count: nat, per_page: int) -> int
    decreases count,
{
    if count == 0 {
        0
    } else {
        chain_capacity((count - 1) as nat, per_page) + per_page
    }
}

/// A chain of distinct overflow pages is no longer than the inventory.
proof fn lemma_chain_bounded(prefix: Seq<PageIdentity>, first: u32, image: Seq<u8>, geometry: DatabaseGeometry, pages: Seq<PageEntity>)
    requires
        overflow_chain(prefix, first, image, geometry, pages),
    ensures
        prefix.len() <= pages.len(),
{
    let numbers = prefix.map_values(|p: PageIdentity| p.page_number);
    assert forall|a: int, b: int| 0 <= a < numbers.len() && 0 <= b < numbers.len() && a != b implies numbers[a] != numbers[b] by {
        if a < b {
            assert(prefix[a] != prefix[b]);
        } else {
            assert(prefix[b] != prefix[a]);
        }
    }
    assert forall|k: int| 0 <= k < numbers.len() implies 1 <= #[trigger] numbers[k] <= pages.len() by {
        assert(free_overflow_page(prefix[k].page_number, geometry.page_count, pages));
    }
    lemma_distinct_pages_bounded(numbers, pages.len() as int);
}

/// Ends an overflow traversal that a stop request interrupted.
fn record_cancelled_overflow(origin: EntityIdentity, prefix: Vec<PageIdentity>, claim_index: usize, topology: &mut OverflowTopology, reason: TraversalStopReason)
    requires
        claim_index < old(topology).claims@.len(),
    ensures
        final(topology).traversals@ == old(topology).traversals@.push(final(topology).traversals@.last()),
        final(topology).traversals@.last()@ == spec_stopped_traversal(origin, prefix@, old(topology).claims@[claim_index as int], reason),
        final(topology).claims == old(topology).claims,
        final(topology).diagnostics == old(topology).diagnostics,
        final(topology).page_claims == old(topology).page_claims,
        final(topology).traversal_pages == old(topology).traversal_pages,
{
    let traversal = stopped_overflow_traversal_with_reason(origin, prefix, &topology.claims[claim_index], reason);
    topology.traversals.push(traversal);
}

/// Ends an overflow traversal that found a fault at `claim`, and reports `code`.
fn record_overflow_stop(topology: &mut OverflowTopology, origin: EntityIdentity, prefix: Vec<PageIdentity>, claim: &RelationshipClaim, reason: TraversalStopReason, code: DiagnosticCode)
    ensures
        final(topology).traversals@ == old(topology).traversals@.push(final(topology).traversals@.last()),
        final(topology).traversals@.last()@ == spec_stopped_traversal(origin, prefix@, *claim, reason),
        final(topology).diagnostics@ == old(topology).diagnostics@.push(final(topology).diagnostics@.last()),
        final(topology).diagnostics@.last()@ == spec_diagnostic(code, *claim, Containment::TraversalStopped),
        final(topology).claims == old(topology).claims,
        final(topology).page_claims == old(topology).page_claims,
        final(topology).traversal_pages == old(topology).traversal_pages,
{
    topology.diagnostics.push(diagnostic(code, claim, Containment::TraversalStopped));
    topology.traversals.push(stopped_overflow_traversal_with_reason(origin, prefix, claim, reason));
}

/// Follows the overflow chain that begins at `first_page`, whose pointer is
/// the validated claim `first_claim_index`, until the payload of `remaining`
/// bytes is carried, the chain ends or faults, or a ceiling or stop request
/// ends it. Exactly one traversal is recorded. Returns false where a stop
/// request or the aggregate ceiling ended the walk.
pub fn follow_overflow_chain(
    image: &[u8],
    geometry: &DatabaseGeometry,
    pages: &Vec<PageEntity>,
    origin: EntityIdentity,
    first_page: u32,
    first_claim_index: usize,
    remaining: u64,
    topology: &mut OverflowTopology,
    max_pages: u32,
    max_total_pages: u64,
    control: &mut WorkControl,
) -> (r: bool)
    requires
        old(topology).wf(image@, *geometry, pages@),
        geometry_wf(*geometry),
        first_claim_index < old(topology).claims@.len(),
        old(topology).claims@[first_claim_index as int].state == RelationshipState::Validated,
        old(topology).claims@[first_claim_index as int].target == Some(PageIdentity { page_number: first_page }),
        max_pages >= 1,
    ensures
        control_kept(*old(control), *final(control)),
        final(topology).wf(image@, *geometry, pages@),
        keeps_shape(final(topology).claims@, old(topology).claims@),
        final(topology).traversals@.len() == old(topology).traversals@.len() + 1,
        final(topology).traversals@.subrange(0, old(topology).traversals@.len() as int) == old(topology).traversals@,
        ({
            let t = final(topology).traversals@.last()@;
            let count = t.validated_prefix.len();
            &&& t.kind == TraversalKind::Overflow
            &&& t.origin == origin
            &&& overflow_chain(t.validated_prefix, first_page, image@, *geometry, pages@)
            &&& count <= max_pages
            &&& final(topology).traversal_pages == old(topology).traversal_pages + count
            &&& count > 0 ==> final(topology).traversal_pages <= max_total_pages
            &&& t.stop is None ==> {
                &&& count >= 1
                &&& spec_read_u32(image@, next_pointer_offset(*geometry, t.validated_prefix[count - 1].page_number)) == Some(0u32)
                &&& remaining <= chain_capacity(count, geometry.usable_size - 4)
                &&& (count == 1 || remaining > chain_capacity((count - 1) as nat, geometry.usable_size - 4))
            }
            &&& !r ==> (t.stop matches Some(s) && (s.reason == TraversalStopReason::Cancelled
                || s.reason == TraversalStopReason::OperatorStop || s.reason == TraversalStopReason::Budget))
        }),
        !r ==> final(control).is_stopped() || final(control).aggregate_budget_exhausted,
{
    broadcast use vstd::std_specs::hash::group_hash_axioms;
    let per_page = (geometry.usable_size - 4) as u64;
    let ghost total = remaining as int;
    let mut left = remaining;
    let mut current = first_page;
    let mut incoming_claim_index = first_claim_index;
    let mut prefix: Vec<PageIdentity> = Vec::new();
    let mut visited: HashSet<u32> = HashSet::new();
    proof {
        assert(free_overflow_page(first_page, geometry.page_count, pages@));
    }
    loop
        invariant
            control_kept(*old(control), *control),
            topology.wf(image@, *geometry, pages@),
            geometry_wf(*geometry),
            per_page == geometry.usable_size - 4,
            total == remaining,
            keeps_shape(topology.claims@, old(topology).claims@),
            topology.traversals@ == old(topology).traversals@,
            topology.traversal_pages == old(topology).traversal_pages + prefix@.len(),
            prefix@.len() > 0 ==> topology.traversal_pages <= max_total_pages,
            overflow_chain(prefix@, first_page, image@, *geometry, pages@),
            prefix@.len() < max_pages,
            prefix@.len() == 0 ==> current == first_page,
            prefix@.len() > 0 ==> next_target(image@, *geometry, prefix@.last().page_number) == Some(PageIdentity { page_number: current }),
            free_overflow_page(current, geometry.page_count, pages@),
            !in_prefix(prefix@, current),
            forall|x: u32| #[trigger] visited@.contains(x) <==> in_prefix(prefix@, x),
            incoming_claim_index < topology.claims@.len(),
            left == if total > chain_capacity(prefix@.len(), per_page as int) {
                total - chain_capacity(prefix@.len(), per_page as int)
            } else {
                0
            },
            prefix@.len() >= 1 ==> left > 0,
        decreases pages@.len() - prefix@.len(),
    {
        proof {
            lemma_chain_bounded(prefix@, first_page, image@, *geometry, pages@);
        }
        if control.stopped() {
            let reason = match control.traversal_reason() {
                Some(r) => r,
                None => TraversalStopReason::Cancelled,
            };
            record_cancelled_overflow(origin, prefix, incoming_claim_index, topology, reason);
            return false;
        }
        if topology.traversal_pages >= max_total_pages {
            control.mark_aggregate_budget_exhausted();
            record_cancelled_overflow(origin, prefix, incoming_claim_index, topology, TraversalStopReason::Budget);
            return false;
        }
        topology.traversal_pages = topology.traversal_pages + 1;
        let ghost before = prefix@;
        visited.insert(current);
        prefix.push(PageIdentity { page_number: current });
        proof {
            assert(prefix@[prefix@.len() - 1].page_number == current);
            assert forall|x: u32| #[trigger] visited@.contains(x) <==> in_prefix(prefix@, x) by {
                if in_prefix(before, x) {
                    let k = choose|k: int| 0 <= k < before.len() && #[trigger] before[k].page_number == x;
                    assert(prefix@[k].page_number == x);
                }
                if in_prefix(prefix@, x) && x != current {
                    let k = choose|k: int| 0 <= k < prefix@.len() && #[trigger] prefix@[k].page_number == x;
                    assert(before[k].page_number == x);
                }
            }
            assert forall|a: int, b: int| 0 <= a < b < prefix@.len() implies #[trigger] prefix@[a] != #[trigger] prefix@[b] by {
                if b == prefix@.len() - 1 {
                    if prefix@[a] == prefix@[b] {
                        assert(before[a].page_number == current);
                    }
                } else {
                    assert(before[a] != before[b]);
                }
            }
            assert forall|k: int| 0 <= k < prefix@.len() - 1 implies #[trigger] next_target(image@, *geometry, prefix@[k].page_number) == Some(prefix@[k + 1]) by {
                if k < before.len() - 1 {
                    assert(next_target(image@, *geometry, before[k].page_number) == Some(before[k + 1]));
                }
            }
            assert forall|k: int| 0 <= k < prefix@.len() implies free_overflow_page(#[trigger] prefix@[k].page_number, geometry.page_count, pages@) by {
                if k < before.len() {
                    assert(free_overflow_page(before[k].page_number, geometry.page_count, pages@));
                }
            }
            assert(chain_capacity(prefix@.len(), per_page as int) == chain_capacity(before.len(), per_page as int) + per_page);
            lemma_chain_bounded(prefix@, first_page, image@, *geometry, pages@);
        }
        left = if left > per_page { left - per_page } else { 0 };
        let ghost before_claim = topology.claims@;
        let claim_index = overflow_next_claim(image, geometry, pages, current, topology);
        proof {
            assert forall|i: int| 0 <= i < old(topology).claims@.len() implies (#[trigger] topology.claims@[i]).id == old(topology).claims@[i].id
                && topology.claims@[i].kind == old(topology).claims@[i].kind
                && topology.claims@[i].source == old(topology).claims@[i].source
                && topology.claims@[i].target == old(topology).claims@[i].target
                && topology.claims@[i].evidence == old(topology).claims@[i].evidence by {
                assert(topology.claims@[i] == before_claim[i]);
            }
        }
        let mut claim = topology.claims[claim_index];
        proof {
            assert(claim.target == next_target(image@, *geometry, current));
        }
        match claim.state {
            RelationshipState::Terminal => {
                if left == 0 {
                    proof {
                        assert(topology.page_claims@[current as int] == Some(claim_index));
                        assert(spec_read_u32(image@, next_pointer_offset(*geometry, current)) == Some(0u32));
                        assert(prefix@[prefix@.len() - 1].page_number == current);
                        assert(total <= chain_capacity(prefix@.len(), per_page as int));
                        assert(prefix@.len() == 1 || total > chain_capacity((prefix@.len() - 1) as nat, per_page as int));
                    }
                    let ghost chain = prefix@;
                    topology.traversals.push(complete_overflow(origin, prefix));
                    proof {
                        let t = topology.traversals@.last()@;
                        assert(t.validated_prefix == chain);
                        assert(overflow_chain(t.validated_prefix, first_page, image@, *geometry, pages@));
                        assert(topology.traversals@.subrange(0, old(topology).traversals@.len() as int) =~= old(topology).traversals@);
                    }
                    return true;
                }
                record_overflow_stop(topology, origin, prefix, &claim, TraversalStopReason::InvalidReference, DiagnosticCode::OverflowChainTruncated);
                return true;
            },
            RelationshipState::Validated => {
                if left == 0 {
                    record_overflow_stop(topology, origin, prefix, &claim, TraversalStopReason::InvalidReference, DiagnosticCode::OverflowChainTooLong);
                    return true;
                }
                let next = match claim.target {
                    Some(t) => t.page_number,
                    None => 0,
                };
                if visited.contains(&next) {
                    claim.state = RelationshipState::Conflicting;
                    claim.stop_reason = Some(TraversalStopReason::Cycle);
                    let ghost unchanged = *topology;
                    topology.claims.set(claim_index, claim);
                    proof {
                        let claims = topology.claims@;
                        assert forall|p: int| 0 <= p < topology.page_claims@.len() && #[trigger] topology.page_claims@[p] is Some implies {
                            &&& p >= 1
                            &&& topology.page_claims@[p].unwrap() < claims.len()
                            &&& claims[topology.page_claims@[p].unwrap() as int].id == (ClaimId::OverflowPage { page_number: p as u32 })
                            &&& claims[topology.page_claims@[p].unwrap() as int].target == next_target(image@, *geometry, p as u32)
                            &&& claims[topology.page_claims@[p].unwrap() as int].state == RelationshipState::Terminal
                                ==> spec_read_u32(image@, next_pointer_offset(*geometry, p as u32)) == Some(0u32)
                        } by {
                            assert(unchanged.page_claims@[p] is Some);
                        }
                        assert forall|i: int| 0 <= i < claims.len() && #[trigger] claims[i].state == RelationshipState::Validated implies {
                            &&& claims[i].target is Some
                            &&& free_overflow_page(claims[i].target.unwrap().page_number, geometry.page_count, pages@)
                            &&& claims[i].stop_reason is None
            &&& claims[i].stop_reason is None
                        } by {
                            assert(claims[i] == unchanged.claims@[i]);
                        }
                        assert forall|i: int| 0 <= i < claims.len() implies ((#[trigger] claims[i]).target matches Some(x) ==> x.page_number >= 1) by {
                            assert(unchanged.claims@[i].target == claims[i].target);
                        }
                        assert forall|i: int| 0 <= i < claims.len() implies (#[trigger] claims[i]).kind == RelationshipKind::Overflow by {
                            assert(unchanged.claims@[i].kind == claims[i].kind);
                        }
                        assert forall|i: int| 0 <= i < old(topology).claims@.len() implies (#[trigger] claims[i]).id == old(topology).claims@[i].id
                            && claims[i].kind == old(topology).claims@[i].kind
                            && claims[i].source == old(topology).claims@[i].source
                            && claims[i].target == old(topology).claims@[i].target
                            && claims[i].evidence == old(topology).claims@[i].evidence by {
                            assert(unchanged.claims@[i].id == old(topology).claims@[i].id);
                        }
                    }
                    record_overflow_stop(topology, origin, prefix, &claim, TraversalStopReason::Cycle, DiagnosticCode::OverflowCycle);
                    return true;
                }
                if prefix.len() >= max_pages as usize {
                    control.mark_budget_exhausted();
                    topology.traversals.push(stopped_overflow_traversal_with_reason(origin, prefix, &claim, TraversalStopReason::Budget));
                    return true;
                }
                proof {
                    assert(free_overflow_page(next, geometry.page_count, pages@));
                    assert(!in_prefix(prefix@, next));
                }
                current = next;
                incoming_claim_index = claim_index;
            },
            _ => {
                topology.traversals.push(stopped_overflow_traversal(origin, prefix, &claim));
                return true;
            },
        }
    }
}

/// The claim made by a cell's first-overflow pointer, before validation.
pub open spec fn first_claim_base(page_number: u32, cell: CellView, first: u32, pointer: ByteRange) -> RelationshipClaim {
    RelationshipClaim {
        id: ClaimId::OverflowCell { page_number, cell_index: cell.identity.index },
        kind: RelationshipKind::Overflow,
        source: EntityIdentity::Cell { page_number, cell_index: cell.identity.index },
        target: if first != 0 { Some(PageIdentity { page_number: first }) } else { None },
        evidence: PhysicalEvidence {
            page: PageIdentity { page_number },
            range: pointer,
            validation_rule: ValidationRule::BtreeFirstOverflowPage,
        },
        state: RelationshipState::Unresolved,
        stop_reason: None,
    }
}

/// That claim once checked: a cell whose extent overlaps another allocation
/// cannot be trusted as a source; otherwise its target is validated.
pub open spec fn spec_first_claim(page_count: u32, pages: Seq<PageEntity>, page_number: u32, cell: CellView, first: u32, pointer: ByteRange) -> RelationshipClaim {
    let base = first_claim_base(page_number, cell, first, pointer);
    if cell.diagnostic == Some(CellDiagnostic::OverlappingAllocation) {
        with_state(base, RelationshipState::Invalid, TraversalStopReason::OverlappingExtent)
    } else {
        spec_validate_overflow_target(page_count, pages, base, DiagnosticCode::OverflowFirstPageMissing, DiagnosticCode::OverflowFirstPageOutOfRange).0
    }
}

/// Whether a cell spills payload to an overflow chain.
pub open spec fn spills(cell: CellView) -> bool {
    cell.overflow_page is Some && cell.overflow_pointer is Some
}

/// The payload bytes that a cell leaves to its overflow chain.
pub open spec fn spilled_bytes(cell: CellView) -> int {
    match (cell.payload_size, cell.local_payload) {
        (Some(total), Some(local)) => if total > local.length { total - local.length } else { 0 },
        _ => 0,
    }
}

/// Inspects the overflow chain of one cell of page `page_number`: records the
/// claim of its first-overflow pointer and one traversal, and follows the
/// chain when the pointer validates. Returns false where a stop request or
/// the aggregate ceiling ended the work.
pub fn inspect_overflow_cell(
    image: &[u8],
    geometry: &DatabaseGeometry,
    pages: &Vec<PageEntity>,
    page_number: u32,
    cell: &CellDetail,
    topology: &mut OverflowTopology,
    max_pages: u32,
    max_total_pages: u64,
    control: &mut WorkControl,
) -> (r: bool)
    requires
        old(topology).wf(image@, *geometry, pages@),
        geometry_wf(*geometry),
    ensures
        control_kept(*old(control), *final(control)),
        final(topology).wf(image@, *geometry, pages@),
        !spills(cell@) ==> *final(topology) == *old(topology) && r,
        !r ==> final(control).is_stopped() || final(control).aggregate_budget_exhausted,
        spills(cell@) ==> {
            let first = cell@.overflow_page.unwrap();
            let claim = final(topology).claims@[old(topology).claims@.len() as int];
            let t = final(topology).traversals@.last()@;
            &&& final(topology).claims@.len() > old(topology).claims@.len()
            &&& keeps_shape(final(topology).claims@, old(topology).claims@)
            &&& claim.id == (ClaimId::OverflowCell { page_number, cell_index: cell@.identity.index })
            &&& claim.evidence.range == cell@.overflow_pointer.unwrap()
            &&& claim.target == first_claim_base(page_number, cell@, first, cell@.overflow_pointer.unwrap()).target
            &&& final(topology).traversals@.len() == old(topology).traversals@.len() + 1
            &&& final(topology).traversals@.subrange(0, old(topology).traversals@.len() as int) == old(topology).traversals@
            &&& t.kind == TraversalKind::Overflow
            &&& t.origin == (EntityIdentity::Cell { page_number, cell_index: cell@.identity.index })
            &&& overflow_chain(t.validated_prefix, first, image@, *geometry, pages@)
            &&& t.validated_prefix.len() <= max_pages
            &&& final(topology).traversal_pages == old(topology).traversal_pages + t.validated_prefix.len()
            &&& (t.validated_prefix.len() > 0 ==> final(topology).traversal_pages <= max_total_pages)
            &&& t.stop is None ==> {
                let count = t.validated_prefix.len();
                &&& count >= 1
                &&& spec_read_u32(image@, next_pointer_offset(*geometry, t.validated_prefix[count - 1].page_number)) == Some(0u32)
                &&& spilled_bytes(cell@) <= chain_capacity(count, geometry.usable_size - 4)
                &&& (count == 1 || spilled_bytes(cell@) > chain_capacity((count - 1) as nat, geometry.usable_size - 4))
            }
            &&& spec_first_claim(geometry.page_count, pages@, page_number, cell@, first, cell@.overflow_pointer.unwrap()).state != RelationshipState::Validated
                ==> t.validated_prefix.len() == 0
        },
{
    let (first_page, pointer) = match (cell.overflow_page, cell.overflow_pointer) {
        (Some(first_page), Some(pointer)) => (first_page, pointer),
        _ => return true,
    };
    let origin = EntityIdentity::Cell { page_number, cell_index: cell.identity.index };
    let mut first = RelationshipClaim {
        id: ClaimId::OverflowCell { page_number, cell_index: cell.identity.index },
        kind: RelationshipKind::Overflow,
        source: origin,
        target: if first_page != 0 { Some(PageIdentity { page_number: first_page }) } else { None },
        evidence: PhysicalEvidence {
            page: PageIdentity { page_number },
            range: pointer,
            validation_rule: ValidationRule::BtreeFirstOverflowPage,
        },
        state: RelationshipState::Unresolved,
        stop_reason: None,
    };
    if cell.diagnostic == Some(CellDiagnostic::OverlappingAllocation) {
        invalidate_overflow_claim(&mut first, RelationshipState::Invalid, TraversalStopReason::OverlappingExtent, DiagnosticCode::OverflowOverlappingSource, &mut topology.diagnostics);
    } else {
        validate_overflow_target(geometry.page_count, pages, &mut first, DiagnosticCode::OverflowFirstPageMissing, DiagnosticCode::OverflowFirstPageOutOfRange, &mut topology.diagnostics);
    }
    let first_claim_index = topology.claims.len();
    let ghost before_push = *topology;
    topology.claims.push(first);
    proof {
        let claims = topology.claims@;
        assert forall|p: int| 0 <= p < topology.page_claims@.len() && #[trigger] topology.page_claims@[p] is Some implies {
            &&& p >= 1
            &&& topology.page_claims@[p].unwrap() < claims.len()
            &&& claims[topology.page_claims@[p].unwrap() as int].id == (ClaimId::OverflowPage { page_number: p as u32 })
            &&& claims[topology.page_claims@[p].unwrap() as int].target == next_target(image@, *geometry, p as u32)
            &&& claims[topology.page_claims@[p].unwrap() as int].state == RelationshipState::Terminal
                ==> spec_read_u32(image@, next_pointer_offset(*geometry, p as u32)) == Some(0u32)
        } by {
            assert(claims[topology.page_claims@[p].unwrap() as int] == before_push.claims@[topology.page_claims@[p].unwrap() as int]);
        }
        assert forall|i: int| 0 <= i < claims.len() && #[trigger] claims[i].state == RelationshipState::Validated implies {
            &&& claims[i].target is Some
            &&& free_overflow_page(claims[i].target.unwrap().page_number, geometry.page_count, pages@)
            &&& claims[i].stop_reason is None
        } by {
            if i < first_claim_index {
                assert(claims[i] == before_push.claims@[i]);
            }
        }
        assert forall|i: int| 0 <= i < claims.len() implies ((#[trigger] claims[i]).target matches Some(x) ==> x.page_number >= 1) by {
            if i < first_claim_index {
                assert(claims[i] == before_push.claims@[i]);
            }
        }
        assert forall|i: int| 0 <= i < claims.len() implies (#[trigger] claims[i]).kind == RelationshipKind::Overflow by {
            if i < first_claim_index {
                assert(claims[i] == before_push.claims@[i]);
            }
        }
    }
    if first.state != RelationshipState::Validated {
        topology.traversals.push(stopped_overflow_traversal(origin, Vec::new(), &first));
        proof {
            assert(topology.traversals@.last()@.validated_prefix =~= Seq::<PageIdentity>::empty());
            assert(topology.traversals@.subrange(0, before_push.traversals@.len() as int) =~= before_push.traversals@);
        }
        return true;
    }
    let aggregate_budget_exhausted = topology.traversal_pages >= max_total_pages;
    control.refresh();
    let external_stop_reason = control.traversal_reason();
    if max_pages == 0 || aggregate_budget_exhausted || external_stop_reason.is_some() {
        if aggregate_budget_exhausted && external_stop_reason.is_none() {
            control.mark_aggregate_budget_exhausted();
        } else if max_pages == 0 && external_stop_reason.is_none() {
            control.mark_budget_exhausted();
        }
        let reason = match external_stop_reason {
            Some(reason) => reason,
            None => TraversalStopReason::Budget,
        };
        topology.traversals.push(stopped_overflow_traversal_with_reason(origin, Vec::new(), &first, reason));
        proof {
            assert(topology.traversals@.last()@.validated_prefix =~= Seq::<PageIdentity>::empty());
            assert(topology.traversals@.subrange(0, before_push.traversals@.len() as int) =~= before_push.traversals@);
        }
        return !aggregate_budget_exhausted && external_stop_reason.is_none();
    }
    let remaining = match (cell.payload_size, cell.local_payload) {
        (Some(total), Some(local)) => if total > local.length as u64 { total - local.length as u64 } else { 0 },
        _ => 0,
    };
    follow_overflow_chain(image, geometry, pages, origin, first_page, first_claim_index, remaining, topology, max_pages, max_total_pages, control)
}

/// The validated claims among the first `upto` that name page `t`, in order.
pub open spec fn owners(claims: Seq<RelationshipClaim>, t: int, upto: int) -> Seq<usize>
    decreases upto,
{
    if upto <= 0 {
        seq![]
    } else {
        let rest = owners(claims, t, upto - 1);
        let c = claims[upto - 1];
        if c.state == RelationshipState::Validated && c.target == Some(PageIdentity { page_number: t as u32 }) {
            rest.push((upto - 1) as usize)
        } else {
            rest
        }
    }
}

proof fn lemma_owners(claims: Seq<RelationshipClaim>, t: int, upto: int)
    requires
        0 <= upto <= claims.len(),
        upto <= usize::MAX,
    ensures
        owners(claims, t, upto).no_duplicates(),
        forall|k: int| 0 <= k < owners(claims, t, upto).len() ==> {
            let j = #[trigger] owners(claims, t, upto)[k] as int;
            &&& 0 <= j < upto
            &&& claims[j].state == RelationshipState::Validated
            &&& claims[j].target == Some(PageIdentity { page_number: t as u32 })
        },
        forall|j: int| 0 <= j < upto && claims[j].state == RelationshipState::Validated
            && claims[j].target == Some(PageIdentity { page_number: t as u32 })
            ==> #[trigger] listed(owners(claims, t, upto), 0, owners(claims, t, upto).len() as int, j),
    decreases upto,
{
    if upto > 0 {
        lemma_owners(claims, t, upto - 1);
        let rest = owners(claims, t, upto - 1);
        let all = owners(claims, t, upto);
        assert forall|j: int| 0 <= j < upto && claims[j].state == RelationshipState::Validated
            && claims[j].target == Some(PageIdentity { page_number: t as u32 })
            implies #[trigger] listed(all, 0, all.len() as int, j) by {
            if j < upto - 1 {
                assert(listed(rest, 0, rest.len() as int, j));
                let w = choose|w: int| 0 <= w < rest.len() && #[trigger] rest[w] as int == j;
                assert(all[w] == rest[w]);
            } else {
                assert(all[all.len() - 1] as int == j);
            }
        }
    }
}

/// How many pages below `below` more than one validated claim of `start` names.
pub open spec fn shared_pages(start: Seq<RelationshipClaim>, below: int) -> int
    decreases below,
{
    if below <= 0 {
        0
    } else {
        shared_pages(start, below - 1) + if owners(start, below - 1, start.len() as int).len() > 1 { 1int } else { 0 }
    }
}

proof fn lemma_shared_pages_grow(start: Seq<RelationshipClaim>, a: int, b: int)
    requires
        a <= b,
    ensures
        0 <= shared_pages(start, a) <= shared_pages(start, b),
    decreases b,
{
    if b > 0 && a < b {
        lemma_shared_pages_grow(start, a, b - 1);
    } else if b > 0 {
        lemma_shared_pages_grow(start, 0, b - 1);
    }
}

/// Claims that an owner reconciliation excluded: validated at `start`, and
/// naming a page that other validated claims name too.
pub open spec fn excluded(start: Seq<RelationshipClaim>, j: int, below: int) -> bool {
    &&& start[j].state == RelationshipState::Validated
    &&& start[j].target matches Some(t) && t.page_number < below
        && owners(start, t.page_number as int, start.len() as int).len() > 1
}

/// Where a walk along `prefix` from position `pos` first meets a page whose
/// next-page claim was excluded: the length of the prefix kept, with that claim.
pub open spec fn first_excluded_owner(prefix: Seq<PageIdentity>, page_claims: Seq<Option<usize>>, start: Seq<RelationshipClaim>, below: int, pos: int) -> Option<(usize, usize)>
    decreases prefix.len() - pos,
{
    if pos < 0 || pos >= prefix.len() {
        None
    } else {
        let page = prefix[pos].page_number;
        let owner = if page < page_claims.len() { page_claims[page as int] } else { None };
        match owner {
            Some(ci) => if ci < start.len() && excluded(start, ci as int, below) {
                Some(((pos + 1) as usize, ci))
            } else {
                first_excluded_owner(prefix, page_claims, start, below, pos + 1)
            },
            None => first_excluded_owner(prefix, page_claims, start, below, pos + 1),
        }
    }
}

/// Where an owner reconciliation cuts traversal `t`, whose origin claim is
/// `origin_claim`: before its first page when that claim was excluded, else
/// after the first page whose next-page claim was.
pub open spec fn owner_cut(t: TraversalView, origin_claim: usize, page_claims: Seq<Option<usize>>, start: Seq<RelationshipClaim>, below: int) -> Option<(usize, usize)> {
    if t.origin is Cell && excluded(start, origin_claim as int, below) {
        Some((0, origin_claim))
    } else {
        first_excluded_owner(t.validated_prefix, page_claims, start, below, 0)
    }
}

/// Traversal `t` after an owner reconciliation: kept whole, or cut where
/// `owner_cut` says with the excluded claim as its stop.
pub open spec fn owner_cut_traversal(t: TraversalView, origin_claim: usize, page_claims: Seq<Option<usize>>, start: Seq<RelationshipClaim>, below: int) -> TraversalView {
    match owner_cut(t, origin_claim, page_claims, start, below) {
        None => t,
        Some((b, ci)) => TraversalView {
            validated_prefix: t.validated_prefix.subrange(0, b as int),
            stop: Some(TraversalStop { reason: TraversalStopReason::ConflictingClaim, claim_id: start[ci as int].id, intended_target: start[ci as int].target }),
            ..t
        },
    }
}

/// Excludes every overflow page that more than one validated claim names:
/// each such claim conflicts, and each traversal that passes through one is
/// cut where it does. Returns false where a stop request interrupted the work.
pub fn reconcile_overflow_owners(
    topology: &mut OverflowTopology,
    origins: &Vec<usize>,
    control: &mut WorkControl,
    Ghost(image): Ghost<Seq<u8>>,
    Ghost(geometry): Ghost<DatabaseGeometry>,
    Ghost(pages): Ghost<Seq<PageEntity>>,
) -> (r: bool)
    requires
        old(topology).wf(image, geometry, pages),
        origins@.len() == old(topology).traversals@.len(),
        forall|k: int| 0 <= k < origins@.len() ==> #[trigger] origins@[k] < old(topology).claims@.len(),
    ensures
        control_kept(*old(control), *final(control)),
        final(topology).wf(image, geometry, pages),
        keeps_shape(final(topology).claims@, old(topology).claims@),
        final(topology).claims@.len() == old(topology).claims@.len(),
        final(topology).traversals@.len() == old(topology).traversals@.len(),
        final(topology).traversal_pages == old(topology).traversal_pages,
        forall|k: int| 0 <= k < old(topology).traversals@.len() ==> {
            &&& (#[trigger] final(topology).traversals@[k])@.kind == old(topology).traversals@[k]@.kind
            &&& final(topology).traversals@[k]@.origin == old(topology).traversals@[k]@.origin
            &&& final(topology).traversals@[k]@.validated_prefix.is_prefix_of(old(topology).traversals@[k]@.validated_prefix)
        },
        r ==> forall|i: int, j: int|
            0 <= i < final(topology).claims@.len() && 0 <= j < final(topology).claims@.len() && i != j
                && #[trigger] final(topology).claims@[i].state == RelationshipState::Validated
                && #[trigger] final(topology).claims@[j].state == RelationshipState::Validated
                ==> final(topology).claims@[i].target != final(topology).claims@[j].target,
        r ==> forall|j: int| 0 <= j < old(topology).claims@.len() ==> #[trigger] final(topology).claims@[j]
            == if excluded(old(topology).claims@, j, old(topology).page_claims@.len() as int) {
                RelationshipClaim { state: RelationshipState::Conflicting, stop_reason: Some(TraversalStopReason::ConflictingClaim), ..old(topology).claims@[j] }
            } else {
                old(topology).claims@[j]
            },
        !r ==> final(control).is_stopped(),
        r ==> final(topology).diagnostics@.len() == old(topology).diagnostics@.len() + shared_pages(old(topology).claims@, old(topology).page_claims@.len() as int),
        forall|k: int| 0 <= k < old(topology).diagnostics@.len() ==> #[trigger] final(topology).diagnostics@[k] == old(topology).diagnostics@[k],
        forall|k: int| old(topology).diagnostics@.len() <= k < final(topology).diagnostics@.len()
            ==> (#[trigger] final(topology).diagnostics@[k])@.code == DiagnosticCode::OverflowDuplicateOwner,
        r ==> forall|k: int| 0 <= k < old(topology).traversals@.len() ==> (#[trigger] final(topology).traversals@[k])@
            == owner_cut_traversal(old(topology).traversals@[k]@, origins@[k], old(topology).page_claims@, old(topology).claims@, old(topology).page_claims@.len() as int),
{
    control.begin_phase(TopologyPhase::OverflowReconciliation, None);
    let ghost start = topology.claims@;
    assert(start.len() == topology.claims.len());
    let n = topology.page_claims.len();
    let mut incoming: Vec<Vec<usize>> = Vec::new();
    let mut t: usize = 0;
    while t < n
        invariant
            control_kept(*old(control), *control),
            t <= n,
            incoming@.len() == t,
            forall|q: int| 0 <= q < t ==> (#[trigger] incoming@[q])@.len() == 0,
        decreases n - t,
    {
        incoming.push(Vec::new());
        t = t + 1;
    }
    let mut index: usize = 0;
    while index < topology.claims.len()
        invariant
            control_kept(*old(control), *control),
            topology.wf(image, geometry, pages),
            topology.claims@ == start,
            *topology == *old(topology),
            n == topology.page_claims@.len(),
            start.len() <= usize::MAX,
            index <= start.len(),
            incoming@.len() == n,
            forall|q: int| 0 <= q < n ==> (#[trigger] incoming@[q])@ == owners(start, q, index as int),
        decreases start.len() - index,
    {
        if control.stopped() {
            return false;
        }
        let claim = topology.claims[index];
        if claim.state == RelationshipState::Validated {
            let target = match claim.target {
                Some(p) => p.page_number as usize,
                None => 0,
            };
            proof {
                assert(free_overflow_page(target as u32, geometry.page_count, pages));
            }
            incoming[target].push(index);
        }
        proof {
            assert forall|q: int| 0 <= q < n implies (#[trigger] incoming@[q])@ == owners(start, q, index + 1) by {
                assert(owners(start, q, index + 1) == if start[index as int].state == RelationshipState::Validated
                    && start[index as int].target == Some(PageIdentity { page_number: q as u32 }) {
                    owners(start, q, index as int).push(index)
                } else {
                    owners(start, q, index as int)
                });
            }
        }
        control.advance(TopologyPhase::OverflowReconciliation);
        index = index + 1;
    }
    let mut marked: Vec<bool> = Vec::new();
    let mut m: usize = 0;
    while m < topology.claims.len()
        invariant
            control_kept(*old(control), *control),
            m <= start.len(),
            topology.claims@ == start,
            marked@.len() == m,
            forall|q: int| 0 <= q < m ==> !(#[trigger] marked@[q]),
        decreases start.len() - m,
    {
        marked.push(false);
        m = m + 1;
    }
    let mut t: usize = 0;
    while t < n
        invariant
            control_kept(*old(control), *control),
            topology.wf(image, geometry, pages),
            n == topology.page_claims@.len(),
            start.len() <= usize::MAX,
            t <= n,
            incoming@.len() == n,
            forall|q: int| 0 <= q < n ==> (#[trigger] incoming@[q])@ == owners(start, q, start.len() as int),
            topology.claims@.len() == start.len(),
            n == old(topology).page_claims@.len(),
            topology.page_claims@ == old(topology).page_claims@,
            topology.diagnostics@.len() == old(topology).diagnostics@.len() + shared_pages(start, t as int),
            forall|k: int| 0 <= k < old(topology).diagnostics@.len() ==> #[trigger] topology.diagnostics@[k] == old(topology).diagnostics@[k],
            forall|k: int| old(topology).diagnostics@.len() <= k < topology.diagnostics@.len()
                ==> (#[trigger] topology.diagnostics@[k])@.code == DiagnosticCode::OverflowDuplicateOwner,
            marked@.len() == start.len(),
            keeps_shape(topology.claims@, start),
            start == old(topology).claims@,
            topology.traversals == old(topology).traversals,
            topology.traversal_pages == old(topology).traversal_pages,
            forall|j: int| 0 <= j < start.len() ==> #[trigger] topology.claims@[j] == if excluded(start, j, t as int) {
                RelationshipClaim { state: RelationshipState::Conflicting, stop_reason: Some(TraversalStopReason::ConflictingClaim), ..start[j] }
            } else {
                start[j]
            },
            forall|j: int| 0 <= j < start.len() ==> #[trigger] marked@[j] == excluded(start, j, t as int),
        decreases n - t,
    {
        if incoming[t].len() > 1 {
            proof {
                lemma_owners(start, t as int, start.len() as int);
                assert forall|k: int| 0 <= k < incoming@[t as int]@.len() implies topology.claims@[#[trigger] incoming@[t as int]@[k] as int].state == RelationshipState::Validated
                    && topology.claims@[incoming@[t as int]@[k] as int].stop_reason is None by {
                    let j = incoming@[t as int]@[k] as int;
                    assert(start[j].target == Some(PageIdentity { page_number: t as u32 }));
                    assert(!excluded(start, j, t as int));
                    assert(topology.claims@[j] == start[j]);
                }
            }
            let found = conflicting_claims_bounded(&mut topology.claims, &incoming[t], DiagnosticCode::OverflowDuplicateOwner, TraversalStopReason::ConflictingClaim, Containment::RelationshipExcluded, control, TopologyPhase::OverflowReconciliation);
            let diagnostic = match found {
                Some(d) => d,
                None => {
                    return false;
                },
            };
            let ghost reported = topology.diagnostics@;
            topology.diagnostics.push(diagnostic);
            proof {
                lemma_shared_pages_grow(start, 0, t as int);
                assert(topology.diagnostics@ == reported.push(diagnostic));
                assert forall|k: int| old(topology).diagnostics@.len() <= k < topology.diagnostics@.len()
                    implies (#[trigger] topology.diagnostics@[k])@.code == DiagnosticCode::OverflowDuplicateOwner by {
                    if k < reported.len() {
                        assert(topology.diagnostics@[k] == reported[k]);
                    }
                }
                assert forall|k: int| 0 <= k < old(topology).diagnostics@.len() implies #[trigger] topology.diagnostics@[k] == old(topology).diagnostics@[k] by {
                    assert(topology.diagnostics@[k] == reported[k]);
                }
                assert(owners(start, t as int, start.len() as int).len() > 1);
            }
            let mut k: usize = 0;
            while k < incoming[t].len()
                invariant
                    control_kept(*old(control), *control),
                    k <= incoming@[t as int]@.len(),
                    incoming@.len() == n,
                    t < n,
                    marked@.len() == start.len(),
                    forall|q: int| 0 <= q < incoming@[t as int]@.len() ==> (#[trigger] incoming@[t as int]@[q]) < start.len(),
                    forall|j: int| 0 <= j < start.len() ==> #[trigger] marked@[j] == (excluded(start, j, t as int) || listed(incoming@[t as int]@, 0, k as int, j)),
                decreases incoming@[t as int]@.len() - k,
            {
                let j = incoming[t][k];
                marked.set(j, true);
                proof {
                    assert forall|q: int| 0 <= q < start.len() implies #[trigger] marked@[q] == (excluded(start, q, t as int) || listed(incoming@[t as int]@, 0, k + 1, q)) by {
                        if q == j {
                            assert(incoming@[t as int]@[k as int] as int == q);
                        } else if listed(incoming@[t as int]@, 0, k + 1, q) {
                            let w = choose|w: int| 0 <= w < k + 1 && #[trigger] incoming@[t as int]@[w] as int == q;
                            assert(w < k);
                        }
                    }
                }
                k = k + 1;
            }
            proof {
                lemma_owners(start, t as int, start.len() as int);
                assert forall|j: int| 0 <= j < start.len() implies #[trigger] marked@[j] == excluded(start, j, t + 1) by {
                    if listed(incoming@[t as int]@, 0, incoming@[t as int]@.len() as int, j) {
                        let w = choose|w: int| 0 <= w < incoming@[t as int]@.len() && #[trigger] incoming@[t as int]@[w] as int == j;
                        assert(start[j].target == Some(PageIdentity { page_number: t as u32 }));
                    }
                    if excluded(start, j, t + 1) && !excluded(start, j, t as int) {
                        assert(listed(incoming@[t as int]@, 0, incoming@[t as int]@.len() as int, j));
                    }
                }
            }
        }
        proof {
            lemma_owners(start, t as int, start.len() as int);
            assert(shared_pages(start, t + 1) == shared_pages(start, t as int)
                + if owners(start, t as int, start.len() as int).len() > 1 { 1int } else { 0 });
        }
        t = t + 1;
    }
    proof {
        let claims = topology.claims@;
        assert forall|i: int, j: int|
            0 <= i < claims.len() && 0 <= j < claims.len() && i != j
                && #[trigger] claims[i].state == RelationshipState::Validated
                && #[trigger] claims[j].state == RelationshipState::Validated
            implies claims[i].target != claims[j].target by {
            if claims[i].target == claims[j].target {
                assert(!excluded(start, i, n as int));
                assert(!excluded(start, j, n as int));
                assert(start[i].state == RelationshipState::Validated);
                assert(start[j].state == RelationshipState::Validated);
                let p = start[i].target.unwrap().page_number;
                assert(free_overflow_page(p, geometry.page_count, pages));
                lemma_owners(start, p as int, start.len() as int);
                let group = owners(start, p as int, start.len() as int);
                assert(listed(group, 0, group.len() as int, i));
                assert(listed(group, 0, group.len() as int, j));
                let wi = choose|w: int| 0 <= w < group.len() && #[trigger] group[w] as int == i;
                let wj = choose|w: int| 0 <= w < group.len() && #[trigger] group[w] as int == j;
                assert(wi != wj);
                assert(group.len() > 1);
            }
        }
    }
    let ghost settled = topology.claims@;
    let ghost reports = topology.diagnostics@;
    proof {
        lemma_shared_pages_grow(start, 0, n as int);
    }
    assert(forall|j: int| 0 <= j < start.len() ==> #[trigger] settled[j] == if excluded(start, j, n as int) {
        RelationshipClaim { state: RelationshipState::Conflicting, stop_reason: Some(TraversalStopReason::ConflictingClaim), ..start[j] }
    } else {
        start[j]
    });
    let mut k: usize = 0;
    while k < topology.traversals.len()
        invariant
            control_kept(*old(control), *control),
            topology.wf(image, geometry, pages),
            topology.claims@ == settled,
            topology.diagnostics@ == reports,
            reports.len() == old(topology).diagnostics@.len() + shared_pages(start, n as int),
            forall|k: int| 0 <= k < old(topology).diagnostics@.len() ==> #[trigger] reports[k] == old(topology).diagnostics@[k],
            forall|k: int| old(topology).diagnostics@.len() <= k < reports.len()
                ==> (#[trigger] reports[k])@.code == DiagnosticCode::OverflowDuplicateOwner,
            settled.len() == start.len(),
            start == old(topology).claims@,
            n == old(topology).page_claims@.len(),
            forall|j: int| 0 <= j < start.len() ==> #[trigger] settled[j] == if excluded(start, j, n as int) {
                RelationshipClaim { state: RelationshipState::Conflicting, stop_reason: Some(TraversalStopReason::ConflictingClaim), ..start[j] }
            } else {
                start[j]
            },
            keeps_shape(settled, start),
            topology.traversal_pages == old(topology).traversal_pages,
            marked@.len() == settled.len(),
            forall|j: int| 0 <= j < start.len() ==> #[trigger] marked@[j] == excluded(start, j, n as int),
            topology.page_claims@ == old(topology).page_claims@,
            forall|q: int| 0 <= q < k ==> (#[trigger] topology.traversals@[q])@
                == owner_cut_traversal(old(topology).traversals@[q]@, origins@[q], old(topology).page_claims@, start, n as int),
            forall|q: int| k <= q < old(topology).traversals@.len() ==> #[trigger] topology.traversals@[q] == old(topology).traversals@[q],
            origins@.len() == old(topology).traversals@.len(),
            forall|q: int| 0 <= q < origins@.len() ==> #[trigger] origins@[q] < old(topology).claims@.len(),
            k <= topology.traversals@.len(),
            topology.traversals@.len() == old(topology).traversals@.len(),
            forall|q: int| 0 <= q < old(topology).traversals@.len() ==> {
                &&& (#[trigger] topology.traversals@[q])@.kind == old(topology).traversals@[q]@.kind
                &&& topology.traversals@[q]@.origin == old(topology).traversals@[q]@.origin
                &&& topology.traversals@[q]@.validated_prefix.is_prefix_of(old(topology).traversals@[q]@.validated_prefix)
            },
        decreases old(topology).traversals@.len() - k,
    {
        if control.stopped() {
            return false;
        }
        let origin_claim = origins[k];
        let mut boundary: Option<(usize, usize)> = match topology.traversals[k].origin {
            EntityIdentity::Cell { .. } => if marked[origin_claim] { Some((0, origin_claim)) } else { None },
            EntityIdentity::Page { .. } => None,
        };
        let ghost walked = old(topology).traversals@[k as int]@.validated_prefix;
        if boundary.is_none() {
            let mut position: usize = 0;
            while position < topology.traversals[k].validated_prefix.len()
                invariant_except_break
                    boundary is None,
                invariant
                    control_kept(*old(control), *control),
                    first_excluded_owner(walked, topology.page_claims@, start, n as int, 0)
                        == first_excluded_owner(walked, topology.page_claims@, start, n as int, position as int),
                    walked == topology.traversals@[k as int]@.validated_prefix,
                    forall|j: int| 0 <= j < start.len() ==> #[trigger] marked@[j] == excluded(start, j, n as int),
                    topology.page_claims@ == old(topology).page_claims@,
                    forall|q: int| 0 <= q < k ==> (#[trigger] topology.traversals@[q])@
                        == owner_cut_traversal(old(topology).traversals@[q]@, origins@[q], old(topology).page_claims@, start, n as int),
                    forall|q: int| k <= q < old(topology).traversals@.len() ==> #[trigger] topology.traversals@[q] == old(topology).traversals@[q],
                    topology.wf(image, geometry, pages),
                    topology.claims@ == settled,
                    topology.diagnostics@ == reports,
                    reports.len() == old(topology).diagnostics@.len() + shared_pages(start, n as int),
                    forall|q: int| 0 <= q < old(topology).diagnostics@.len() ==> #[trigger] reports[q] == old(topology).diagnostics@[q],
                    forall|q: int| old(topology).diagnostics@.len() <= q < reports.len()
                        ==> (#[trigger] reports[q])@.code == DiagnosticCode::OverflowDuplicateOwner,
                    settled.len() == start.len(),
                    start == old(topology).claims@,
                    keeps_shape(settled, start),
                    topology.traversal_pages == old(topology).traversal_pages,
                    topology.traversals@.len() == old(topology).traversals@.len(),
                    forall|q: int| 0 <= q < old(topology).traversals@.len() ==> {
                        &&& (#[trigger] topology.traversals@[q])@.kind == old(topology).traversals@[q]@.kind
                        &&& topology.traversals@[q]@.origin == old(topology).traversals@[q]@.origin
                        &&& topology.traversals@[q]@.validated_prefix.is_prefix_of(old(topology).traversals@[q]@.validated_prefix)
                    },
                    k < topology.traversals@.len(),
                    marked@.len() == topology.claims@.len(),
                    position <= topology.traversals@[k as int].validated_prefix@.len(),
                    boundary matches Some((b, i)) ==> b <= topology.traversals@[k as int].validated_prefix@.len() && i < topology.claims@.len(),
                ensures
                    boundary == first_excluded_owner(walked, topology.page_claims@, start, n as int, 0),
                decreases topology.traversals@[k as int].validated_prefix@.len() - position,
            {
                if control.stopped() {
                    return false;
                }
                control.advance(TopologyPhase::OverflowReconciliation);
                let page = topology.traversals[k].validated_prefix[position].page_number as usize;
                if page < topology.page_claims.len() {
                    if let Some(claim_index) = topology.page_claims[page] {
                        if marked[claim_index] {
                            boundary = Some((position + 1, claim_index));
                            break;
                        }
                    }
                }
                position = position + 1;
            }
        }
        assert(boundary == owner_cut(old(topology).traversals@[k as int]@, origin_claim, old(topology).page_claims@, start, n as int));
        let ghost uncut = topology.traversals@;
        if let Some((b, claim_index)) = boundary {
            let claim = topology.claims[claim_index];
            let ghost before = topology.traversals@;
            topology.traversals[k].validated_prefix.truncate(b);
            topology.traversals[k].stop = Some(TraversalStop {
                reason: TraversalStopReason::ConflictingClaim,
                claim_id: claim.id,
                intended_target: claim.target,
            });
            proof {
                assert forall|q: int| 0 <= q < old(topology).traversals@.len() implies {
                    &&& (#[trigger] topology.traversals@[q])@.kind == old(topology).traversals@[q]@.kind
                    &&& topology.traversals@[q]@.origin == old(topology).traversals@[q]@.origin
                    &&& topology.traversals@[q]@.validated_prefix.is_prefix_of(old(topology).traversals@[q]@.validated_prefix)
                } by {
                    if q == k {
                        let short = topology.traversals@[q]@.validated_prefix;
                        let mid = before[q]@.validated_prefix;
                        assert(short.is_prefix_of(mid));
                        assert(mid.is_prefix_of(old(topology).traversals@[q]@.validated_prefix));
                        assert(short =~= old(topology).traversals@[q]@.validated_prefix.subrange(0, short.len() as int));
                    } else {
                        assert(topology.traversals@[q] == before[q]);
                    }
                }
            }
        }
        proof {
            assert(topology.traversals@[k as int]@ == owner_cut_traversal(old(topology).traversals@[k as int]@, origin_claim, old(topology).page_claims@, start, n as int));
            assert forall|q: int| 0 <= q < k + 1 implies (#[trigger] topology.traversals@[q])@
                == owner_cut_traversal(old(topology).traversals@[q]@, origins@[q], old(topology).page_claims@, start, n as int) by {
                if q < k {
                    assert(topology.traversals@[q] == uncut[q]);
                }
            }
            assert forall|q: int| k + 1 <= q < old(topology).traversals@.len() implies #[trigger] topology.traversals@[q] == old(topology).traversals@[q] by {
                assert(topology.traversals@[q] == uncut[q]);
            }
        }
        control.advance(TopologyPhase::OverflowReconciliation);
        k = k + 1;
    }
    control.finish_phase(TopologyPhase::OverflowReconciliation);
    true
}

/// The cells of the inventory, counted up to `u64::MAX`.
pub fn count_overflow_cells(pages: &Vec<PageEntity>, control: &mut WorkControl) -> (r: Option<u64>)
    ensures
        control_kept(*old(control), *final(control)),
        r matches Some(count) ==> count == if cell_total(pages@) > u64::MAX { u64::MAX as int } else { cell_total(pages@) },
        r is None ==> final(control).is_stopped(),
{
    control.begin_phase(TopologyPhase::OverflowInspection, None);
    let mut count: u64 = 0;
    let mut i: usize = 0;
    while i < pages.len()
        invariant
            control_kept(*old(control), *control),
            i <= pages@.len(),
            count == if cell_total(pages@.subrange(0, i as int)) > u64::MAX { u64::MAX as int } else { cell_total(pages@.subrange(0, i as int)) },
        decreases pages@.len() - i,
    {
        if control.stopped() {
            return None;
        }
        let cells = pages[i].detail.cells.len() as u64;
        assert(pages@.subrange(0, i + 1).drop_last() =~= pages@.subrange(0, i as int));
        count = count.saturating_add(cells);
        control.advance(TopologyPhase::OverflowInspection);
        i = i + 1;
    }
    assert(pages@.subrange(0, pages@.len() as int) =~= pages@);
    Some(count)
}

/// A recorded overflow traversal: it follows an overflow chain no longer
/// than the per-path ceiling.
pub open spec fn overflow_traversal(t: TraversalView, image: Seq<u8>, geometry: DatabaseGeometry, pages: Seq<PageEntity>, max_pages: u32) -> bool {
    &&& t.kind == TraversalKind::Overflow
    &&& t.validated_prefix.len() <= max_pages
    &&& t.validated_prefix.len() >= 1 ==> overflow_chain(t.validated_prefix, t.validated_prefix[0].page_number, image, geometry, pages)
}

/// No two validated claims name the same page.
pub open spec fn single_owner(claims: Seq<RelationshipClaim>) -> bool {
    forall|i: int, j: int|
        0 <= i < claims.len() && 0 <= j < claims.len() && i != j
            && #[trigger] claims[i].state == RelationshipState::Validated
            && #[trigger] claims[j].state == RelationshipState::Validated
            ==> claims[i].target != claims[j].target
}

/// The origins, in order, of the first `c` cells of page `page_number` that
/// spill onto overflow pages.
pub open spec fn cell_origins(page_number: u32, cells: Seq<CellDetail>, c: int) -> Seq<EntityIdentity>
    decreases c,
{
    if c <= 0 {
        seq![]
    } else {
        let rest = cell_origins(page_number, cells, c - 1);
        if spills(cells[c - 1]@) {
            rest.push(EntityIdentity::Cell { page_number, cell_index: cells[c - 1]@.identity.index })
        } else {
            rest
        }
    }
}

/// The origins, in order, of every spilling cell of the first `i` pages.
pub open spec fn page_origins(pages: Seq<PageEntity>, i: int) -> Seq<EntityIdentity>
    decreases i,
{
    if i <= 0 {
        seq![]
    } else {
        page_origins(pages, i - 1) + cell_origins(pages[i - 1].number, pages[i - 1].detail.cells@, pages[i - 1].detail.cells@.len() as int)
    }
}

/// The origins of `traversals`, in order.
pub open spec fn traversal_origins(traversals: Seq<Traversal>) -> Seq<EntityIdentity> {
    Seq::new(traversals.len(), |k: int| traversals[k]@.origin)
}

/// Inspects the overflow chains of every cell of the inventory, then
/// excludes pages with more than one owner. Work that stops part-way
/// withdraws every overflow validation it made.
pub fn inspect_overflow(image: &[u8], geometry: &DatabaseGeometry, pages: &Vec<PageEntity>, budget: TraversalBudget, traversal_pages: u64, control: &mut WorkControl) -> (r: OverflowTopology)
    requires
        geometry_wf(*geometry),
        numbered(pages@),
    ensures
        control_kept(*old(control), *final(control)),
        r.wf(image@, *geometry, pages@),
        single_owner(r.claims@),
        forall|k: int| 0 <= k < r.traversals@.len() ==> overflow_traversal(#[trigger] r.traversals@[k]@, image@, *geometry, pages@, budget.spec_max_overflow_pages()),
        r.traversal_pages >= traversal_pages,
        r.traversal_pages > traversal_pages ==> r.traversal_pages <= budget.spec_max_total_pages(),
        !final(control).is_stopped() && !final(control).aggregate_budget_exhausted
            ==> traversal_origins(r.traversals@) == page_origins(pages@, pages@.len() as int),
{
    let mut page_claims: Vec<Option<usize>> = Vec::new();
    let mut n: usize = 0;
    while n <= pages.len()
        invariant
            control_kept(*old(control), *control),
            n <= pages@.len() + 1,
            pages@.len() < u32::MAX,
            page_claims@.len() == n,
            forall|t: int| 0 <= t < n ==> page_claims@[t] is None,
        decreases pages@.len() + 1 - n,
    {
        page_claims.push(None);
        n = n + 1;
    }
    let mut result = OverflowTopology {
        claims: Vec::new(),
        traversals: Vec::new(),
        diagnostics: Vec::new(),
        page_claims,
        traversal_pages,
    };
    let mut origins: Vec<usize> = Vec::new();
    let max_pages = budget.max_overflow_pages();
    let max_total_pages = budget.max_total_pages();
    let cell_count = match count_overflow_cells(pages, control) {
        Some(c) => c,
        None => return result,
    };
    control.begin_phase(TopologyPhase::OverflowInspection, Some(cell_count));
    let mut i: usize = 0;
    while i < pages.len()
        invariant
            control_kept(*old(control), *control),
            result.wf(image@, *geometry, pages@),
            geometry_wf(*geometry),
            i <= pages@.len(),
            max_pages == budget.spec_max_overflow_pages(),
            max_total_pages == budget.spec_max_total_pages(),
            origins@.len() == result.traversals@.len(),
            forall|k: int| 0 <= k < origins@.len() ==> #[trigger] origins@[k] < result.claims@.len(),
            forall|k: int| 0 <= k < result.traversals@.len() ==> overflow_traversal(#[trigger] result.traversals@[k]@, image@, *geometry, pages@, max_pages),
            result.traversal_pages >= traversal_pages,
            result.traversal_pages > traversal_pages ==> result.traversal_pages <= max_total_pages,
            traversal_origins(result.traversals@) == page_origins(pages@, i as int),
        decreases pages@.len() - i,
    {
        if control.is_aggregate_budget_exhausted() || control.stopped() {
            downgrade_validated_claims(&mut result.claims, RelationshipKind::Overflow);
            proof {
                lemma_downgraded_single_owner(result.claims@);
            }
            return result;
        }
        let page_number = pages[i].number;
        let mut c: usize = 0;
        while c < pages[i].detail.cells.len()
            invariant
                control_kept(*old(control), *control),
                result.wf(image@, *geometry, pages@),
                geometry_wf(*geometry),
                i < pages@.len(),
                c <= pages@[i as int].detail.cells@.len(),
                max_pages == budget.spec_max_overflow_pages(),
                max_total_pages == budget.spec_max_total_pages(),
                origins@.len() == result.traversals@.len(),
                forall|k: int| 0 <= k < origins@.len() ==> #[trigger] origins@[k] < result.claims@.len(),
                forall|k: int| 0 <= k < result.traversals@.len() ==> overflow_traversal(#[trigger] result.traversals@[k]@, image@, *geometry, pages@, max_pages),
                result.traversal_pages >= traversal_pages,
                result.traversal_pages > traversal_pages ==> result.traversal_pages <= max_total_pages,
                page_number == pages@[i as int].number,
                traversal_origins(result.traversals@) == page_origins(pages@, i as int)
                    + cell_origins(page_number, pages@[i as int].detail.cells@, c as int),
            decreases pages@[i as int].detail.cells@.len() - c,
        {
            if control.is_aggregate_budget_exhausted() || control.stopped() {
                downgrade_validated_claims(&mut result.claims, RelationshipKind::Overflow);
                proof {
                    lemma_downgraded_single_owner(result.claims@);
                }
                return result;
            }
            let first_index = result.claims.len();
            let ghost before = result;
            let spilling = pages[i].detail.cells[c].overflow_page.is_some() && pages[i].detail.cells[c].overflow_pointer.is_some();
            let ongoing = inspect_overflow_cell(image, geometry, pages, page_number, &pages[i].detail.cells[c], &mut result, max_pages, max_total_pages, control);
            if spilling {
                origins.push(first_index);
            }
            proof {
                assert forall|k: int| 0 <= k < origins@.len() implies #[trigger] origins@[k] < result.claims@.len() by {
                    if k < before.traversals@.len() {
                        assert(origins@[k] < before.claims@.len());
                    }
                }
                assert forall|k: int| 0 <= k < result.traversals@.len() implies overflow_traversal(#[trigger] result.traversals@[k]@, image@, *geometry, pages@, max_pages) by {
                    if k < before.traversals@.len() {
                        assert(result.traversals@[k] == before.traversals@[k]);
                    } else {
                        let t = result.traversals@[k]@;
                        if t.validated_prefix.len() >= 1 {
                            assert(t.validated_prefix[0].page_number == pages@[i as int].detail.cells@[c as int]@.overflow_page.unwrap());
                        }
                    }
                }
            }
            proof {
                let cells = pages@[i as int].detail.cells@;
                let prior = page_origins(pages@, i as int) + cell_origins(page_number, cells, c as int);
                if spills(cells[c as int]@) {
                    assert(traversal_origins(result.traversals@) =~= traversal_origins(before.traversals@).push(
                        EntityIdentity::Cell { page_number, cell_index: cells[c as int]@.identity.index })) by {
                        assert forall|k: int| 0 <= k < before.traversals@.len() implies result.traversals@[k] == before.traversals@[k] by {
                            assert(result.traversals@.subrange(0, before.traversals@.len() as int)[k] == result.traversals@[k]);
                        }
                    }
                    assert(prior.push(EntityIdentity::Cell { page_number, cell_index: cells[c as int]@.identity.index })
                        =~= page_origins(pages@, i as int) + cell_origins(page_number, cells, c + 1));
                } else {
                    assert(cell_origins(page_number, cells, c + 1) == cell_origins(page_number, cells, c as int));
                }
            }
            if ongoing {
                control.advance(TopologyPhase::OverflowInspection);
            } else {
                downgrade_validated_claims(&mut result.claims, RelationshipKind::Overflow);
                proof {
                    lemma_downgraded_single_owner(result.claims@);
                }
                return result;
            }
            c = c + 1;
        }
        proof {
            assert(page_origins(pages@, i + 1) == page_origins(pages@, i as int)
                + cell_origins(pages@[i as int].number, pages@[i as int].detail.cells@, pages@[i as int].detail.cells@.len() as int));
        }
        i = i + 1;
    }
    control.finish_phase(TopologyPhase::OverflowInspection);
    let mut reconciled = false;
    if !control.stopped() {
        let ghost before = result;
        reconciled = reconcile_overflow_owners(&mut result, &origins, control, Ghost(image@), Ghost(*geometry), Ghost(pages@));
        proof {
            assert(traversal_origins(result.traversals@) =~= traversal_origins(before.traversals@));
            assert forall|k: int| 0 <= k < result.traversals@.len() implies overflow_traversal(#[trigger] result.traversals@[k]@, image@, *geometry, pages@, max_pages) by {
                let t = result.traversals@[k]@;
                let o = before.traversals@[k]@;
                assert(overflow_traversal(o, image@, *geometry, pages@, max_pages));
                assert(t.validated_prefix.is_prefix_of(o.validated_prefix));
                if t.validated_prefix.len() >= 1 {
                    assert(t.validated_prefix[0] == o.validated_prefix[0]);
                    assert forall|q: int| 0 <= q < t.validated_prefix.len() - 1 implies #[trigger] next_target(image@, *geometry, t.validated_prefix[q].page_number) == Some(t.validated_prefix[q + 1]) by {
                        assert(t.validated_prefix[q] == o.validated_prefix[q]);
                        assert(t.validated_prefix[q + 1] == o.validated_prefix[q + 1]);
                    }
                    assert forall|q: int| 0 <= q < t.validated_prefix.len() implies free_overflow_page(#[trigger] t.validated_prefix[q].page_number, geometry.page_count, pages@) by {
                        assert(t.validated_prefix[q] == o.validated_prefix[q]);
                    }
                    assert forall|a: int, b: int| 0 <= a < b < t.validated_prefix.len() implies #[trigger] t.validated_prefix[a] != #[trigger] t.validated_prefix[b] by {
                        assert(t.validated_prefix[a] == o.validated_prefix[a]);
                        assert(t.validated_prefix[b] == o.validated_prefix[b]);
                    }
                }
            }
        }
    }
    if !reconciled {
        downgrade_validated_claims(&mut result.claims, RelationshipKind::Overflow);
        proof {
            lemma_downgraded_single_owner(result.claims@);
        }
    }
    result
}

/// Withdrawing overflow validation keeps a topology well formed and leaves no
/// validated overflow claim.
proof fn lemma_downgraded_single_owner(claims: Seq<RelationshipClaim>)
    requires
        forall|i: int| 0 <= i < claims.len() ==> (#[trigger] claims[i]).kind == RelationshipKind::Overflow,
        forall|i: int| 0 <= i < claims.len() ==> (#[trigger] claims[i]).state != RelationshipState::Validated,
    ensures
        single_owner(claims),
{
}

} // verus!
