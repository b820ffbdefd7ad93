//! B-tree child claims: collecting them from interior pages, validating
//! each against the page it names, and withholding the claims that give a
//! page two parents or close a cycle.
use vstd::prelude::*;

use crate::btree::{BtreeHeader, CellDetail, CellDiagnostic, Kind, PageDiagnostic};
use crate::inventory::PageEntity;
use crate::topology::control_kept;
use crate::topology::{
    compatible_btree_kinds, diagnostic, spec_compatible_btree_kinds, spec_diagnostic, source_page, spec_source_page, ClaimId,
    Containment, DiagnosticCode, EntityIdentity, PageIdentity, PhysicalEvidence, RelationshipClaim, RelationshipKind,
    RelationshipState, StructuralDiagnostic, TopologyPhase, TraversalStopReason, ValidationRule, WorkControl,
};
use crate::btree::ByteRange;
use crate::links::{conflicting_claims_bounded, downgrade_validated_claims, downgraded, listed, spec_conflict};
use crate::topology::{DiagnosticView, reserve_traversal_pages, Traversal, TraversalKind, TraversalStop, TraversalView};
use crate::freelist::numbered;
use crate::roles::copy_prefix;

verus! {

/// The claim that the left-child pointer of interior cell `cell` makes.
pub open spec fn left_child_claim(number: u32, cell: CellDetail) -> RelationshipClaim {
    RelationshipClaim {
        id: ClaimId::BtreeCell { page_number: number, cell_index: cell.identity.index },
        kind: RelationshipKind::BtreeChild,
        source: EntityIdentity::Cell { page_number: number, cell_index: cell.identity.index },
        target: Some(PageIdentity { page_number: cell.left_child.unwrap() }),
        evidence: PhysicalEvidence {
            page: PageIdentity { page_number: number },
            range: cell.left_child_pointer.unwrap(),
            validation_rule: ValidationRule::BtreeInteriorLeftChild,
        },
        state: RelationshipState::Unresolved,
        stop_reason: None,
    }
}

/// The claim that the rightmost-child pointer of an interior page header makes.
pub open spec fn rightmost_claim(number: u32, header: BtreeHeader, target: u32) -> RelationshipClaim {
    RelationshipClaim {
        id: ClaimId::BtreeRightmost { page_number: number },
        kind: RelationshipKind::BtreeChild,
        source: EntityIdentity::Page { page_number: number },
        target: Some(PageIdentity { page_number: target }),
        evidence: PhysicalEvidence {
            page: PageIdentity { page_number: number },
            range: ByteRange {
                page_offset: (header.range.page_offset + 8) as u32,
                file_offset: (header.range.file_offset + 8) as u64,
                length: 4,
            },
            validation_rule: ValidationRule::BtreeInteriorRightmostChild,
        },
        state: RelationshipState::Unresolved,
        stop_reason: None,
    }
}

/// The left-child claims of `cells`, in cell order.
pub open spec fn cell_claims(number: u32, cells: Seq<CellDetail>) -> Seq<RelationshipClaim>
    decreases cells.len(),
{
    if cells.len() == 0 {
        seq![]
    } else {
        let rest = cell_claims(number, cells.drop_last());
        if cells.last().left_child is Some {
            rest.push(left_child_claim(number, cells.last()))
        } else {
            rest
        }
    }
}

pub open spec fn is_interior(kind: Option<Kind>) -> bool {
    kind == Some(Kind::TableInterior) || kind == Some(Kind::IndexInterior)
}

/// The child claims of one page: those of its cells, then its rightmost child.
pub open spec fn page_claims(page: PageEntity) -> Seq<RelationshipClaim> {
    if is_interior(page.detail.kind) {
        cell_claims(page.number, page.detail.cells@) + match page.detail.header {
            Some(header) => match header.rightmost_child {
                Some(target) => seq![rightmost_claim(page.number, header, target)],
                None => seq![],
            },
            None => seq![],
        }
    } else {
        seq![]
    }
}

/// The child claims of `pages`, in page order.
pub open spec fn inventory_claims(pages: Seq<PageEntity>) -> Seq<RelationshipClaim>
    decreases pages.len(),
{
    if pages.len() == 0 {
        seq![]
    } else {
        inventory_claims(pages.drop_last()) + page_claims(pages.last())
    }
}

/// Every child pointer of an interior page carries the bytes it was read from.
pub open spec fn pointers_evident(pages: Seq<PageEntity>) -> bool {
    forall|p: int| 0 <= p < pages.len() && is_interior((#[trigger] pages[p]).detail.kind) ==> {
        &&& forall|c: int|
            0 <= c < pages[p].detail.cells@.len() && (#[trigger] pages[p].detail.cells@[c]).left_child is Some
                ==> pages[p].detail.cells@[c].left_child_pointer is Some
        &&& pages[p].detail.header matches Some(h) ==> h.range.page_offset + 8 <= u32::MAX && h.range.file_offset + 8 <= u64::MAX
    }
}

proof fn lemma_inventory_claims_prefix(pages: Seq<PageEntity>, j: int, k: int)
    requires
        0 <= j <= k <= pages.len(),
    ensures
        inventory_claims(pages.take(j)).is_prefix_of(inventory_claims(pages.take(k))),
    decreases k - j,
{
    if j < k {
        lemma_inventory_claims_prefix(pages, j, k - 1);
        assert(pages.take(k).drop_last() =~= pages.take(k - 1));
    }
}

/// Collects the child claims of every interior page, in page order: the
/// left child of each cell, then the rightmost child of the header. A stop
/// leaves the claims of the pages already visited.
pub fn collect_btree_claims(pages: &Vec<PageEntity>, control: &mut WorkControl) -> (claims: Vec<RelationshipClaim>)
    requires
        pointers_evident(pages@),
    ensures
        control_kept(*old(control), *final(control)),
        claims@.is_prefix_of(inventory_claims(pages@)),
        !final(control).is_stopped() ==> claims@ == inventory_claims(pages@),
        !final(control).is_stopped() ==> final(control).phase == TopologyPhase::BtreeClaimCollection.spec_code()
            && final(control).phase_complete,
{
    let mut claims: Vec<RelationshipClaim> = Vec::new();
    control.begin_phase(TopologyPhase::BtreeClaimCollection, Some(pages.len() as u64));
    let ghost begun = *control;
    let mut p: usize = 0;
    while p < pages.len()
        invariant
            pointers_evident(pages@),
            p <= pages@.len(),
            claims@ == inventory_claims(pages@.take(p as int)),
            control_kept(*old(control), *control),
            !control.is_stopped() ==> control.phase == begun.phase && !begun.is_stopped(),
            !begun.is_stopped() ==> begun.phase == TopologyPhase::BtreeClaimCollection.spec_code(),
        decreases pages@.len() - p,
    {
        proof {
            lemma_inventory_claims_prefix(pages@, p as int, pages@.len() as int);
            assert(pages@.take(pages@.len() as int) =~= pages@);
        }
        if control.stopped() {
            return claims;
        }
        let page = &pages[p];
        let ghost before = claims@;
        assert(pages@.take(p + 1).drop_last() =~= pages@.take(p as int));
        assert(pages@.take(p + 1).last() == *page);
        if page.detail.kind == Some(Kind::TableInterior) || page.detail.kind == Some(Kind::IndexInterior) {
            let mut c: usize = 0;
            while c < page.detail.cells.len()
                invariant
                    pointers_evident(pages@),
                    p < pages@.len(),
                    *page == pages@[p as int],
                    is_interior(page.detail.kind),
                    c <= page.detail.cells@.len(),
                    claims@ == before + cell_claims(page.number, page.detail.cells@.take(c as int)),
                decreases page.detail.cells@.len() - c,
            {
                let cell = &page.detail.cells[c];
                assert(page.detail.cells@.take(c + 1).drop_last() =~= page.detail.cells@.take(c as int));
                if let Some(target) = cell.left_child {
                    assert(pages@[p as int].detail.cells@[c as int].left_child is Some);
                    let range = match cell.left_child_pointer {
                        Some(range) => range,
                        None => {
                            assert(false);
                            cell.pointer
                        },
                    };
                    claims.push(RelationshipClaim {
                        id: ClaimId::BtreeCell { page_number: page.number, cell_index: cell.identity.index },
                        kind: RelationshipKind::BtreeChild,
                        source: EntityIdentity::Cell { page_number: page.number, cell_index: cell.identity.index },
                        target: Some(PageIdentity { page_number: target }),
                        evidence: PhysicalEvidence {
                            page: PageIdentity { page_number: page.number },
                            range,
                            validation_rule: ValidationRule::BtreeInteriorLeftChild,
                        },
                        state: RelationshipState::Unresolved,
                        stop_reason: None,
                    });
                }
                assert(claims@ =~= before + cell_claims(page.number, page.detail.cells@.take(c + 1)));
                c = c + 1;
            }
            assert(page.detail.cells@.take(c as int) =~= page.detail.cells@);
            let ghost mid = claims@;
            match page.detail.header {
                Some(header) => match header.rightmost_child {
                    Some(target) => {
                        claims.push(RelationshipClaim {
                            id: ClaimId::BtreeRightmost { page_number: page.number },
                            kind: RelationshipKind::BtreeChild,
                            source: EntityIdentity::Page { page_number: page.number },
                            target: Some(PageIdentity { page_number: target }),
                            evidence: PhysicalEvidence {
                                page: PageIdentity { page_number: page.number },
                                range: ByteRange {
                                    page_offset: header.range.page_offset + 8,
                                    file_offset: header.range.file_offset + 8,
                                    length: 4,
                                },
                                validation_rule: ValidationRule::BtreeInteriorRightmostChild,
                            },
                            state: RelationshipState::Unresolved,
                            stop_reason: None,
                        });
                        assert(claims@ =~= mid + seq![rightmost_claim(page.number, header, target)]);
                    },
                    None => {
                        assert(claims@ =~= mid + seq![]);
                    },
                },
                None => {
                    assert(claims@ =~= mid + seq![]);
                },
            }
        } else {
            assert(claims@ =~= before + seq![]);
        }
        assert(claims@ =~= inventory_claims(pages@.take(p + 1)));
        control.advance(TopologyPhase::BtreeClaimCollection);
        p = p + 1;
    }
    assert(pages@.take(p as int) =~= pages@);
    control.finish_phase(TopologyPhase::BtreeClaimCollection);
    claims
}


/// The source cell of a cell claim, if the source page has it.
pub open spec fn source_cell(pages: Seq<PageEntity>, claim: RelationshipClaim) -> Option<CellDetail> {
    match claim.source {
        EntityIdentity::Cell { page_number, cell_index } => {
            let cells = pages[page_number - 1].detail.cells@;
            if cell_index < cells.len() {
                Some(cells[cell_index as int])
            } else {
                None
            }
        },
        EntityIdentity::Page { .. } => None,
    }
}

/// What validation makes of a B-tree child claim, and the diagnostic it
/// reports, if any.
pub open spec fn btree_verdict(page_count: u32, pages: Seq<PageEntity>, claim: RelationshipClaim) -> (RelationshipClaim, Option<DiagnosticCode>) {
    let target = claim.target.unwrap().page_number;
    let settle = |state: RelationshipState, reason: TraversalStopReason| RelationshipClaim { state, stop_reason: Some(reason), ..claim };
    if source_cell(pages, claim) matches Some(cell) && cell.diagnostic == Some(CellDiagnostic::OverlappingAllocation) {
        (settle(RelationshipState::Invalid, TraversalStopReason::OverlappingExtent), Some(DiagnosticCode::BtreeChildOverlappingSource))
    } else if target == 0 {
        (settle(RelationshipState::Invalid, TraversalStopReason::InvalidReference), Some(DiagnosticCode::BtreeChildInvalidPage))
    } else if target > page_count {
        (settle(RelationshipState::Unresolved, TraversalStopReason::OutOfRange), Some(DiagnosticCode::BtreeChildOutOfRange))
    } else if target > pages.len() {
        (settle(RelationshipState::Unresolved, TraversalStopReason::CoverageStop), None)
    } else if pages[target - 1].detail.diagnostics@.contains(PageDiagnostic::PageReadFailed) {
        (settle(RelationshipState::Unresolved, TraversalStopReason::MissingTarget), Some(DiagnosticCode::BtreeChildMissing))
    } else if spec_compatible_btree_kinds(pages[spec_source_page(claim.source) - 1].detail.kind, pages[target - 1].detail.kind) {
        (RelationshipClaim { state: RelationshipState::Validated, ..claim }, None)
    } else {
        (settle(RelationshipState::Invalid, TraversalStopReason::TypeMismatch), Some(DiagnosticCode::BtreeChildTypeMismatch))
    }
}

fn page_read_failed(diagnostics: &Vec<PageDiagnostic>) -> (r: bool)
    ensures
        r == diagnostics@.contains(PageDiagnostic::PageReadFailed),
{
    let mut k: usize = 0;
    while k < diagnostics.len()
        invariant
            k <= diagnostics@.len(),
            forall|j: int| 0 <= j < k ==> diagnostics@[j] != PageDiagnostic::PageReadFailed,
        decreases diagnostics@.len() - k,
    {
        if diagnostics[k] == PageDiagnostic::PageReadFailed {
            assert(diagnostics@[k as int] == PageDiagnostic::PageReadFailed);
            return true;
        }
        k = k + 1;
    }
    false
}

/// Validates one B-tree child claim against the page it names: the target
/// must be a page of the file, readable, and of a kind that the source page
/// may have as a child, and the source cell must not overlap another.
pub fn validate_btree_claim(page_count: u32, pages: &Vec<PageEntity>, claim: &mut RelationshipClaim) -> (r: Option<StructuralDiagnostic>)
    requires
        1 <= spec_source_page(old(claim).source) <= pages@.len(),
        old(claim).target is Some,
    ensures
        *final(claim) == btree_verdict(page_count, pages@, *old(claim)).0,
        match btree_verdict(page_count, pages@, *old(claim)).1 {
            Some(code) => r matches Some(d) && d@ == spec_diagnostic(code, *final(claim), Containment::TraversalStopped),
            None => r is None,
        },
{
    let source_number = source_page(&claim.source);
    let source = &pages[(source_number - 1) as usize];
    let overlapping = match claim.source {
        EntityIdentity::Cell { cell_index, .. } => {
            if (cell_index as usize) < source.detail.cells.len() {
                source.detail.cells[cell_index as usize].diagnostic == Some(CellDiagnostic::OverlappingAllocation)
            } else {
                false
            }
        },
        EntityIdentity::Page { .. } => false,
    };
    let target = match claim.target {
        Some(t) => t.page_number,
        None => 0,
    };
    let (state, reason, code) = if overlapping {
        (RelationshipState::Invalid, TraversalStopReason::OverlappingExtent, DiagnosticCode::BtreeChildOverlappingSource)
    } else if target == 0 {
        (RelationshipState::Invalid, TraversalStopReason::InvalidReference, DiagnosticCode::BtreeChildInvalidPage)
    } else if target > page_count {
        (RelationshipState::Unresolved, TraversalStopReason::OutOfRange, DiagnosticCode::BtreeChildOutOfRange)
    } else if (target as usize) <= pages.len() {
        let target_page = &pages[(target - 1) as usize];
        if page_read_failed(&target_page.detail.diagnostics) {
            claim.state = RelationshipState::Unresolved;
            claim.stop_reason = Some(TraversalStopReason::MissingTarget);
            return Some(diagnostic(DiagnosticCode::BtreeChildMissing, claim, Containment::TraversalStopped));
        }
        if compatible_btree_kinds(source.detail.kind, target_page.detail.kind) {
            claim.state = RelationshipState::Validated;
            return None;
        }
        (RelationshipState::Invalid, TraversalStopReason::TypeMismatch, DiagnosticCode::BtreeChildTypeMismatch)
    } else {
        claim.state = RelationshipState::Unresolved;
        claim.stop_reason = Some(TraversalStopReason::CoverageStop);
        return None;
    };
    claim.state = state;
    claim.stop_reason = Some(reason);
    Some(diagnostic(code, claim, Containment::TraversalStopped))
}


/// Claim `j` is validated and names page `t`.
pub open spec fn validated_child_of(claims: Seq<RelationshipClaim>, j: int, t: int) -> bool {
    claims[j].state == RelationshipState::Validated && (claims[j].target matches Some(p) && p.page_number == t)
}

/// The positions of the validated claims among the first `n` that name page `t`.
pub open spec fn parents_of(claims: Seq<RelationshipClaim>, t: int, n: int) -> Seq<usize>
    decreases n,
{
    if n <= 0 {
        seq![]
    } else {
        let rest = parents_of(claims, t, n - 1);
        if validated_child_of(claims, n - 1, t) {
            rest.push((n - 1) as usize)
        } else {
            rest
        }
    }
}

/// The page that validated claim `claim` names.
pub open spec fn child_page(claim: RelationshipClaim) -> int {
    claim.target.unwrap().page_number as int
}

/// Validated claim `j` shares its target with another validated claim.
pub open spec fn duplicate_parent(claims: Seq<RelationshipClaim>, j: int) -> bool {
    claims[j].state == RelationshipState::Validated && parents_of(claims, child_page(claims[j]), claims.len() as int).len() > 1
}

/// `claim` withheld as one of several parents of its target.
pub open spec fn withheld_parent(claim: RelationshipClaim) -> RelationshipClaim {
    RelationshipClaim { state: RelationshipState::Conflicting, stop_reason: Some(TraversalStopReason::ConflictingClaim), ..claim }
}

/// One report for each page below `upto` that validated claims give more
/// than one parent, in page order.
pub open spec fn duplicate_reports(claims: Seq<RelationshipClaim>, upto: int) -> Seq<DiagnosticView>
    decreases upto,
{
    if upto <= 0 {
        seq![]
    } else {
        let rest = duplicate_reports(claims, upto - 1);
        let parents = parents_of(claims, upto - 1, claims.len() as int);
        if parents.len() > 1 {
            rest.push(spec_conflict(claims, parents, DiagnosticCode::BtreeDuplicateParent, Containment::RelationshipExcluded))
        } else {
            rest
        }
    }
}

proof fn lemma_parents_of(claims: Seq<RelationshipClaim>, t: int, n: int)
    requires
        0 <= n <= claims.len(),
        claims.len() <= usize::MAX,
    ensures
        forall|k: int| 0 <= k < parents_of(claims, t, n).len() ==> (#[trigger] parents_of(claims, t, n)[k]) < n
            && validated_child_of(claims, parents_of(claims, t, n)[k] as int, t),
        forall|a: int, b: int| 0 <= a < b < parents_of(claims, t, n).len()
            ==> (#[trigger] parents_of(claims, t, n)[a]) < (#[trigger] parents_of(claims, t, n)[b]),
        forall|j: int| 0 <= j < n ==> (validated_child_of(claims, j, t) <==> #[trigger] listed(parents_of(claims, t, n), 0, parents_of(claims, t, n).len() as int, j)),
        parents_of(claims, t, n).no_duplicates(),
    decreases n,
{
    if n > 0 {
        lemma_parents_of(claims, t, n - 1);
        let rest = parents_of(claims, t, n - 1);
        let all = parents_of(claims, t, n);
        assert forall|j: int| 0 <= j < n implies (validated_child_of(claims, j, t) <==> #[trigger] listed(all, 0, all.len() as int, j)) by {
            if j < n - 1 {
                if listed(rest, 0, rest.len() as int, j) {
                    let w = choose|w: int| 0 <= w < rest.len() && #[trigger] rest[w] as int == j;
                    assert(all[w] == rest[w]);
                }
                if listed(all, 0, all.len() as int, j) {
                    let w = choose|w: int| 0 <= w < all.len() && #[trigger] all[w] as int == j;
                    if w < rest.len() {
                        assert(all[w] == rest[w]);
                    }
                }
            } else {
                if validated_child_of(claims, j, t) {
                    assert(all[rest.len() as int] as int == j);
                    assert(listed(all, 0, all.len() as int, j));
                }
                if listed(all, 0, all.len() as int, j) {
                    let w = choose|w: int| 0 <= w < all.len() && #[trigger] all[w] as int == j;
                    if w < rest.len() {
                        assert(all[w] == rest[w]);
                    }
                }
            }
        }
        assert forall|a: int, b: int| 0 <= a < b < all.len() implies (#[trigger] all[a]) < (#[trigger] all[b]) by {
            if b < rest.len() {
                assert(all[a] == rest[a] && all[b] == rest[b]);
            } else {
                assert(all[a] == rest[a]);
            }
        }
    }
}

/// Withholds every validated child claim whose target another validated
/// claim also names, reporting each such page once, in page order. A stop
/// leaves the claims of pages not yet reached as they were.
pub fn mark_duplicate_btree_parents(page_count: usize, claims: &mut Vec<RelationshipClaim>, control: &mut WorkControl) -> (r: Vec<StructuralDiagnostic>)
    requires
        page_count < usize::MAX,
        forall|j: int| 0 <= j < old(claims)@.len() && (#[trigger] old(claims)@[j]).state == RelationshipState::Validated
            ==> (old(claims)@[j].target matches Some(p) && p.page_number <= page_count && old(claims)@[j].stop_reason is None),
    ensures
        control_kept(*old(control), *final(control)),
        final(claims)@.len() == old(claims)@.len(),
        forall|j: int| 0 <= j < old(claims)@.len() ==> #[trigger] final(claims)@[j] == old(claims)@[j]
            || (duplicate_parent(old(claims)@, j) && final(claims)@[j] == withheld_parent(old(claims)@[j])),
        !final(control).is_stopped() ==> {
            &&& forall|j: int| 0 <= j < old(claims)@.len() ==> #[trigger] final(claims)@[j] == if duplicate_parent(old(claims)@, j) {
                withheld_parent(old(claims)@[j])
            } else {
                old(claims)@[j]
            }
            &&& r@.len() == duplicate_reports(old(claims)@, page_count + 1).len()
            &&& forall|k: int| 0 <= k < r@.len() ==> (#[trigger] r@[k])@ == duplicate_reports(old(claims)@, page_count + 1)[k]
            &&& final(control).phase == TopologyPhase::BtreeParentReconciliation.spec_code()
            &&& final(control).phase_complete
        },
{
    let ghost olds = claims@;
    control.begin_phase(TopologyPhase::BtreeParentReconciliation, None);
    let ghost begun = *control;
    let mut incoming: Vec<Vec<usize>> = Vec::new();
    let mut t: usize = 0;
    while t <= page_count
        invariant
            t <= page_count + 1,
            page_count < usize::MAX,
            incoming@.len() == t,
            forall|u: int| 0 <= u < t ==> (#[trigger] incoming@[u])@.len() == 0,
        decreases page_count + 1 - t,
    {
        incoming.push(Vec::new());
        t = t + 1;
    }
    let mut k: usize = 0;
    while k < claims.len()
        invariant
            claims@ == olds,
            olds == old(claims)@,
            k <= olds.len(),
            incoming@.len() == page_count + 1,
            forall|j: int| 0 <= j < olds.len() && (#[trigger] olds[j]).state == RelationshipState::Validated
                ==> (olds[j].target matches Some(p) && p.page_number <= page_count && olds[j].stop_reason is None),
            forall|u: int| 0 <= u <= page_count ==> (#[trigger] incoming@[u])@ == parents_of(olds, u, k as int),
            control_kept(*old(control), *control),
            !control.is_stopped() ==> control.phase == begun.phase && control.phase_complete == begun.phase_complete && !begun.is_stopped(),
        decreases olds.len() - k,
    {
        if control.stopped() {
            return Vec::new();
        }
        if claims[k].state == RelationshipState::Validated {
            assert(olds[k as int].state == RelationshipState::Validated);
            let target = match claims[k].target {
                Some(p) => p.page_number as usize,
                None => 0,
            };
            let ghost before = incoming@;
            let mut bucket: Vec<usize> = Vec::new();
            std::mem::swap(&mut bucket, &mut incoming[target]);
            bucket.push(k);
            std::mem::swap(&mut bucket, &mut incoming[target]);
            assert forall|u: int| 0 <= u <= page_count implies (#[trigger] incoming@[u])@ == parents_of(olds, u, k + 1) by {
                if u != target {
                    assert(incoming@[u] == before[u]);
                }
            }
        } else {
            assert forall|u: int| 0 <= u <= page_count implies (#[trigger] incoming@[u])@ == parents_of(olds, u, k + 1) by {}
        }
        control.advance(TopologyPhase::BtreeParentReconciliation);
        k = k + 1;
    }
    let mut diagnostics: Vec<StructuralDiagnostic> = Vec::new();
    let mut t: usize = 0;
    while t <= page_count
        invariant
            olds == old(claims)@,
            claims@.len() == olds.len(),
            page_count < usize::MAX,
            t <= page_count + 1,
            incoming@.len() == page_count + 1,
            forall|j: int| 0 <= j < olds.len() && (#[trigger] olds[j]).state == RelationshipState::Validated
                ==> (olds[j].target matches Some(p) && p.page_number <= page_count && olds[j].stop_reason is None),
            forall|u: int| 0 <= u <= page_count ==> (#[trigger] incoming@[u])@ == parents_of(olds, u, olds.len() as int),
            forall|j: int| 0 <= j < olds.len() ==> #[trigger] claims@[j] == if duplicate_parent(olds, j) && child_page(olds[j]) < t {
                withheld_parent(olds[j])
            } else {
                olds[j]
            },
            diagnostics@.len() == duplicate_reports(olds, t as int).len(),
            forall|m: int| 0 <= m < diagnostics@.len() ==> (#[trigger] diagnostics@[m])@ == duplicate_reports(olds, t as int)[m],
            control_kept(*old(control), *control),
            !control.is_stopped() ==> control.phase == begun.phase && control.phase_complete == begun.phase_complete && !begun.is_stopped(),
        decreases page_count + 1 - t,
    {
        if control.stopped() {
            proof {
                assert forall|j: int| 0 <= j < olds.len() implies #[trigger] claims@[j] == olds[j]
                    || (duplicate_parent(olds, j) && claims@[j] == withheld_parent(olds[j])) by {}
            }
            return diagnostics;
        }
        control.advance(TopologyPhase::BtreeParentReconciliation);
        let ghost before = claims@;
        proof {
            assert(olds.len() == old(claims).len());
            lemma_parents_of(olds, t as int, olds.len() as int);
        }
        let ghost parents = parents_of(olds, t as int, olds.len() as int);
        if incoming[t].len() > 1 {
            proof {
                assert forall|m: int| 0 <= m < incoming@[t as int]@.len() implies before[#[trigger] incoming@[t as int]@[m] as int] == olds[incoming@[t as int]@[m] as int] by {
                    let j = parents[m] as int;
                    assert(validated_child_of(olds, j, t as int));
                    assert(child_page(olds[j]) == t);
                }
            }
            let found = conflicting_claims_bounded(
                claims,
                &incoming[t],
                DiagnosticCode::BtreeDuplicateParent,
                TraversalStopReason::ConflictingClaim,
                Containment::RelationshipExcluded,
                control,
                TopologyPhase::BtreeParentReconciliation,
            );
            let d = match found {
                Some(d) => d,
                None => {
                    proof {
                        assert forall|j: int| 0 <= j < olds.len() implies #[trigger] claims@[j] == olds[j]
                            || (duplicate_parent(olds, j) && claims@[j] == withheld_parent(olds[j])) by {
                            assert(claims@[j] == before[j]);
                        }
                    }
                    return diagnostics;
                },
            };
            proof {
                assert(parents.map_values(|i: usize| before[i as int].evidence) =~= parents.map_values(|i: usize| olds[i as int].evidence));
                assert(parents.map_values(|i: usize| before[i as int].id) =~= parents.map_values(|i: usize| olds[i as int].id));
                assert(d@ == spec_conflict(olds, parents, DiagnosticCode::BtreeDuplicateParent, Containment::RelationshipExcluded));
                assert forall|j: int| 0 <= j < olds.len() implies #[trigger] claims@[j] == if duplicate_parent(olds, j) && child_page(olds[j]) < t + 1 {
                    withheld_parent(olds[j])
                } else {
                    olds[j]
                } by {
                    if listed(parents, 0, parents.len() as int, j) {
                        assert(validated_child_of(olds, j, t as int));
                        assert(before[j] == olds[j]);
                    } else {
                        if olds[j].state == RelationshipState::Validated && child_page(olds[j]) == t {
                            assert(validated_child_of(olds, j, t as int));
                        }
                    }
                }
            }
            diagnostics.push(d);
        } else {
            proof {
                assert forall|j: int| 0 <= j < olds.len() implies #[trigger] claims@[j] == if duplicate_parent(olds, j) && child_page(olds[j]) < t + 1 {
                    withheld_parent(olds[j])
                } else {
                    olds[j]
                } by {
                    if olds[j].state == RelationshipState::Validated && child_page(olds[j]) == t {
                        assert(validated_child_of(olds, j, t as int));
                        assert(listed(parents, 0, parents.len() as int, j));
                    }
                }
            }
        }
        t = t + 1;
    }
    proof {
        assert forall|j: int| 0 <= j < olds.len() implies #[trigger] claims@[j] == if duplicate_parent(olds, j) {
            withheld_parent(olds[j])
        } else {
            olds[j]
        } by {
            if olds[j].state == RelationshipState::Validated {
                assert(child_page(olds[j]) <= page_count);
            }
        }
    }
    control.finish_phase(TopologyPhase::BtreeParentReconciliation);
    diagnostics
}


/// The parent the first `n` claims give page `t`: the source page of the
/// last validated claim among them that names `t`, or 0 when none does.
pub open spec fn parent_among(claims: Seq<RelationshipClaim>, n: int, t: int) -> u32
    decreases n,
{
    if n <= 0 {
        0
    } else if validated_child_of(claims, n - 1, t) {
        spec_source_page(claims[n - 1].source)
    } else {
        parent_among(claims, n - 1, t)
    }
}

/// The parent that the validated claims give page `t`.
pub open spec fn parent_of(claims: Seq<RelationshipClaim>, t: int) -> u32 {
    parent_among(claims, claims.len() as int, t)
}

/// `cycle` is a closed walk of parents: each page's parent is the next page,
/// and the last page's parent is the first.
pub open spec fn parent_cycle(claims: Seq<RelationshipClaim>, cycle: Seq<u32>, page_count: int) -> bool {
    &&& cycle.len() >= 1
    &&& cycle.no_duplicates()
    &&& forall|i: int| 0 <= i < cycle.len() ==> 1 <= #[trigger] cycle[i] <= page_count
    &&& forall|i: int| 0 <= i < cycle.len() - 1 ==> parent_of(claims, #[trigger] cycle[i] as int) == cycle[i + 1]
    &&& parent_of(claims, cycle.last() as int) == cycle[0]
}

/// Every validated claim names a page within `page_count`, from a page within it.
pub open spec fn claims_within(claims: Seq<RelationshipClaim>, page_count: int) -> bool {
    forall|j: int| 0 <= j < claims.len() && (#[trigger] claims[j]).state == RelationshipState::Validated
        ==> (claims[j].target matches Some(p) && p.page_number <= page_count && spec_source_page(claims[j].source) <= page_count)
}

proof fn lemma_parent_within(claims: Seq<RelationshipClaim>, n: int, t: int, page_count: int)
    requires
        0 <= n <= claims.len(),
        0 <= page_count,
        claims_within(claims, page_count),
    ensures
        parent_among(claims, n, t) <= page_count,
    decreases n,
{
    if n > 0 {
        lemma_parent_within(claims, n - 1, t, page_count);
        if validated_child_of(claims, n - 1, t) {
            assert(claims[n - 1].state == RelationshipState::Validated);
        }
    }
}

/// Page `u` lies on a cycle of the parent relation.
pub open spec fn on_parent_cycle(claims: Seq<RelationshipClaim>, u: u32, page_count: int) -> bool {
    exists|c: Seq<u32>| #[trigger] parent_cycle(claims, c, page_count) && c.contains(u)
}

/// Page `u` belongs to one of the reported cycles.
pub open spec fn reported_cycle(cycles: Seq<Vec<u32>>, u: u32) -> bool {
    exists|k: int| 0 <= k < cycles.len() && (#[trigger] cycles[k])@.contains(u)
}

/// Every page marked done that lies on a parent cycle has been reported.
pub open spec fn done_reported(done: Seq<bool>, cycles: Seq<Vec<u32>>, claims: Seq<RelationshipClaim>, page_count: int) -> bool {
    forall|u: int| 0 <= u < done.len() && #[trigger] done[u] && on_parent_cycle(claims, u as u32, page_count) ==> reported_cycle(cycles, u as u32)
}

/// Every page of `path` that lies on a parent cycle has been reported.
pub open spec fn path_reported(path: Seq<u32>, cycles: Seq<Vec<u32>>, claims: Seq<RelationshipClaim>, page_count: int) -> bool {
    forall|i: int| 0 <= i < path.len() && on_parent_cycle(claims, #[trigger] path[i], page_count) ==> reported_cycle(cycles, path[i])
}

/// `path` follows parents, and `current` is the parent of its last page.
pub open spec fn parent_walk(claims: Seq<RelationshipClaim>, path: Seq<u32>, current: u32) -> bool {
    &&& forall|i: int| 0 <= i < path.len() - 1 ==> parent_of(claims, #[trigger] path[i] as int) == path[i + 1]
    &&& path.len() > 0 ==> parent_of(claims, path.last() as int) == current
}

/// A parent cycle holds the parent of each of its pages.
proof fn lemma_cycle_closed(claims: Seq<RelationshipClaim>, c: Seq<u32>, page_count: int, x: u32)
    requires
        parent_cycle(claims, c, page_count),
        c.contains(x),
    ensures
        c.contains(parent_of(claims, x as int)),
{
    let i = choose|i: int| 0 <= i < c.len() && c[i] == x;
    if i < c.len() - 1 {
        assert(c[i + 1] == parent_of(claims, c[i] as int));
    } else {
        assert(c[0] == parent_of(claims, c[i] as int));
    }
}

proof fn lemma_cycle_forward(claims: Seq<RelationshipClaim>, c: Seq<u32>, d: Seq<u32>, page_count: int, j: int, k: int)
    requires
        parent_cycle(claims, c, page_count),
        parent_cycle(claims, d, page_count),
        0 <= j <= k < c.len(),
        d.contains(c[j]),
    ensures
        d.contains(c[k]),
    decreases k - j,
{
    if k > j {
        lemma_cycle_forward(claims, c, d, page_count, j, k - 1);
        lemma_cycle_closed(claims, d, page_count, c[k - 1]);
        assert(parent_of(claims, c[k - 1] as int) == c[k]);
    }
}

/// Two parent cycles that share a page share every page.
proof fn lemma_cycle_absorbs(claims: Seq<RelationshipClaim>, c: Seq<u32>, d: Seq<u32>, page_count: int, x: u32)
    requires
        parent_cycle(claims, c, page_count),
        parent_cycle(claims, d, page_count),
        c.contains(x),
        d.contains(x),
    ensures
        forall|y: u32| c.contains(y) ==> d.contains(y),
{
    let j = choose|j: int| 0 <= j < c.len() && c[j] == x;
    lemma_cycle_forward(claims, c, d, page_count, j, c.len() - 1);
    lemma_cycle_closed(claims, d, page_count, c.last());
    assert(d.contains(c[0]));
    assert forall|y: u32| c.contains(y) implies d.contains(y) by {
        let k = choose|k: int| 0 <= k < c.len() && c[k] == y;
        lemma_cycle_forward(claims, c, d, page_count, 0, k);
    }
}

/// A walk of parents that enters a parent cycle stays in it, up to the page
/// after its last.
proof fn lemma_walk_in_cycle(claims: Seq<RelationshipClaim>, path: Seq<u32>, current: u32, c: Seq<u32>, page_count: int, i: int)
    requires
        parent_walk(claims, path, current),
        parent_cycle(claims, c, page_count),
        0 <= i < path.len(),
        c.contains(path[i]),
    ensures
        c.contains(current),
{
    lemma_walk_in_cycle_to(claims, path, current, c, page_count, i, path.len() - 1);
    lemma_cycle_closed(claims, c, page_count, path[path.len() - 1]);
}

proof fn lemma_walk_in_cycle_to(claims: Seq<RelationshipClaim>, path: Seq<u32>, current: u32, c: Seq<u32>, page_count: int, i: int, m: int)
    requires
        parent_walk(claims, path, current),
        parent_cycle(claims, c, page_count),
        0 <= i <= m < path.len(),
        c.contains(path[i]),
    ensures
        c.contains(path[m]),
    decreases m - i,
{
    if m > i {
        lemma_walk_in_cycle_to(claims, path, current, c, page_count, i, m - 1);
        lemma_cycle_closed(claims, c, page_count, path[m - 1]);
        assert(parent_of(claims, path[m - 1] as int) == path[m]);
    }
}

/// A walk that ends at a page already done reports every cycle page it passed.
proof fn lemma_walk_reported(claims: Seq<RelationshipClaim>, page_count: int, path: Seq<u32>, current: u32, done: Seq<bool>, cycles: Seq<Vec<u32>>)
    requires
        parent_walk(claims, path, current),
        current == 0 || (current < done.len() && done[current as int]),
        done_reported(done, cycles, claims, page_count),
        forall|k: int| 0 <= k < cycles.len() ==> parent_cycle(claims, (#[trigger] cycles[k])@, page_count),
    ensures
        path_reported(path, cycles, claims, page_count),
{
    assert forall|i: int| 0 <= i < path.len() && on_parent_cycle(claims, #[trigger] path[i], page_count) implies reported_cycle(cycles, path[i]) by {
        let c = choose|c: Seq<u32>| #[trigger] parent_cycle(claims, c, page_count) && c.contains(path[i]);
        lemma_walk_in_cycle(claims, path, current, c, page_count, i);
        let w = choose|w: int| 0 <= w < c.len() && c[w] == current;
        assert(current >= 1);
        assert(on_parent_cycle(claims, current, page_count));
        assert(done[current as int]);
        let k = choose|k: int| 0 <= k < cycles.len() && (#[trigger] cycles[k])@.contains(current);
        lemma_cycle_absorbs(claims, c, cycles[k]@, page_count, current);
        assert(cycles[k]@.contains(path[i]));
    }
}

/// A walk that closes the cycle `d` reports every cycle page it passed.
proof fn lemma_closed_reported(claims: Seq<RelationshipClaim>, page_count: int, path: Seq<u32>, current: u32, cycles: Seq<Vec<u32>>)
    requires
        parent_walk(claims, path, current),
        cycles.len() > 0,
        parent_cycle(claims, cycles.last()@, page_count),
        cycles.last()@.contains(current),
    ensures
        path_reported(path, cycles, claims, page_count),
{
    let d = cycles.last()@;
    assert forall|i: int| 0 <= i < path.len() && on_parent_cycle(claims, #[trigger] path[i], page_count) implies reported_cycle(cycles, path[i]) by {
        let c = choose|c: Seq<u32>| #[trigger] parent_cycle(claims, c, page_count) && c.contains(path[i]);
        lemma_walk_in_cycle(claims, path, current, c, page_count, i);
        lemma_cycle_absorbs(claims, c, d, page_count, current);
        assert(cycles[cycles.len() - 1]@.contains(path[i]));
    }
}

/// Pushing a cycle keeps every page reported.
proof fn lemma_reported_push(cycles: Seq<Vec<u32>>, v: Vec<u32>)
    ensures
        forall|u: u32| reported_cycle(cycles, u) ==> reported_cycle(cycles.push(v), u),
{
    assert forall|u: u32| reported_cycle(cycles, u) implies reported_cycle(cycles.push(v), u) by {
        let k = choose|k: int| 0 <= k < cycles.len() && (#[trigger] cycles[k])@.contains(u);
        assert(cycles.push(v)[k] == cycles[k]);
    }
}

/// Finds the cycles of the parent relation that validated claims define,
/// walking up from each page not yet visited. Every cycle reported is a
/// closed walk of parents, and unless a stop ends the work, every page on a
/// cycle lies in a reported one.
pub fn btree_cycles(page_count: usize, claims: &Vec<RelationshipClaim>, control: &mut WorkControl) -> (cycles: Vec<Vec<u32>>)
    requires
        page_count < u32::MAX,
        claims_within(claims@, page_count as int),
    ensures
        control_kept(*old(control), *final(control)),
        final(control).phase == old(control).phase,
        final(control).phase_complete == old(control).phase_complete,
        forall|c: int| 0 <= c < cycles@.len() ==> parent_cycle(claims@, (#[trigger] cycles@[c])@, page_count as int),
        !final(control).is_stopped() ==> forall|u: u32| 1 <= u <= page_count && #[trigger] on_parent_cycle(claims@, u, page_count as int)
            ==> reported_cycle(cycles@, u),
{
    let mut parent: Vec<u32> = Vec::new();
    let mut t: usize = 0;
    while t <= page_count
        invariant
            page_count < u32::MAX,
            t <= page_count + 1,
            parent@.len() == t,
            forall|u: int| 0 <= u < t ==> #[trigger] parent@[u] == 0,
        decreases page_count + 1 - t,
    {
        parent.push(0);
        t = t + 1;
    }
    let mut k: usize = 0;
    while k < claims.len()
        invariant
            page_count < u32::MAX,
            claims_within(claims@, page_count as int),
            k <= claims@.len(),
            parent@.len() == page_count + 1,
            forall|u: int| 0 <= u <= page_count ==> #[trigger] parent@[u] == parent_among(claims@, k as int, u),
            control_kept(*old(control), *control),
            control.phase == old(control).phase,
            control.phase_complete == old(control).phase_complete,
        decreases claims@.len() - k,
    {
        if control.stopped() {
            return Vec::new();
        }
        let claim = &claims[k];
        if claim.state == RelationshipState::Validated {
            assert(claims@[k as int].state == RelationshipState::Validated);
            let target = match claim.target {
                Some(p) => p.page_number as usize,
                None => 0,
            };
            parent.set(target, source_page(&claim.source));
        }
        control.advance(TopologyPhase::BtreeCycleReconciliation);
        k = k + 1;
    }
    let mut done: Vec<bool> = Vec::new();
    let mut seen: Vec<usize> = Vec::new();
    let mut pos: Vec<usize> = Vec::new();
    let mut t: usize = 0;
    while t <= page_count
        invariant
            page_count < u32::MAX,
            t <= page_count + 1,
            done@.len() == t,
            seen@.len() == t,
            pos@.len() == t,
            forall|u: int| 0 <= u < t ==> #[trigger] seen@[u] == 0,
            forall|u: int| 0 <= u < t ==> !(#[trigger] done@[u]),
        decreases page_count + 1 - t,
    {
        done.push(false);
        seen.push(0);
        pos.push(0);
        t = t + 1;
    }
    let mut cycles: Vec<Vec<u32>> = Vec::new();
    let mut start: usize = 1;
    while start <= page_count
        invariant
            page_count < u32::MAX,
            claims_within(claims@, page_count as int),
            1 <= start <= page_count + 1,
            parent@.len() == page_count + 1,
            forall|u: int| 0 <= u <= page_count ==> #[trigger] parent@[u] == parent_of(claims@, u),
            done@.len() == page_count + 1,
            seen@.len() == page_count + 1,
            pos@.len() == page_count + 1,
            forall|u: int| 0 <= u <= page_count ==> #[trigger] seen@[u] < start,
            forall|c: int| 0 <= c < cycles@.len() ==> parent_cycle(claims@, (#[trigger] cycles@[c])@, page_count as int),
            forall|u: int| 1 <= u < start ==> #[trigger] done@[u],
            done_reported(done@, cycles@, claims@, page_count as int),
            control_kept(*old(control), *control),
            control.phase == old(control).phase,
            control.phase_complete == old(control).phase_complete,
        decreases page_count + 1 - start,
    {
        if control.stopped() {
            return cycles;
        }
        if done[start] {
            control.advance(TopologyPhase::BtreeCycleReconciliation);
            start = start + 1;
            continue;
        }
        let mut path: Vec<u32> = Vec::new();
        let mut current: u32 = start as u32;
        let ghost mut closed = false;
        while current != 0 && !done[current as usize]
            invariant_except_break
                !closed,
            invariant
                forall|u: int| 1 <= u < start ==> #[trigger] done@[u],
                !done@[start as int],
                done_reported(done@, cycles@, claims@, page_count as int),
                path@.len() > 0 ==> path@[0] == start,
                parent_walk(claims@, path@, current),
                page_count < u32::MAX,
                claims_within(claims@, page_count as int),
                1 <= start <= page_count,
                current <= page_count,
                parent@.len() == page_count + 1,
                forall|u: int| 0 <= u <= page_count ==> #[trigger] parent@[u] == parent_of(claims@, u),
                done@.len() == page_count + 1,
                seen@.len() == page_count + 1,
                pos@.len() == page_count + 1,
                forall|u: int| 0 <= u <= page_count ==> #[trigger] seen@[u] <= start,
                forall|u: int| 0 <= u <= page_count ==> (#[trigger] seen@[u] == start <==> path@.contains(u as u32)),
                forall|i: int| 0 <= i < path@.len() ==> #[trigger] pos@[path@[i] as int] == i,
                forall|i: int| 0 <= i < path@.len() ==> 1 <= #[trigger] path@[i] <= page_count,
                path@.no_duplicates(),
                forall|i: int| 0 <= i < path@.len() - 1 ==> parent_of(claims@, #[trigger] path@[i] as int) == path@[i + 1],
                path@.len() > 0 ==> parent_of(claims@, path@.last() as int) == current,
                path@.len() == 0 ==> current == start,
                forall|c: int| 0 <= c < cycles@.len() ==> parent_cycle(claims@, (#[trigger] cycles@[c])@, page_count as int),
                control_kept(*old(control), *control),
                control.phase == old(control).phase,
                control.phase_complete == old(control).phase_complete,
            ensures
                closed ==> path_reported(path@, cycles@, claims@, page_count as int),
                closed ==> path@.len() > 0,
                !closed ==> current == 0 || done@[current as int],
            decreases page_count + 1 - path@.len(),
        {
            proof {
                crate::freelist::lemma_distinct_pages_bounded(path@, page_count as int);
            }
            if control.stopped() {
                return cycles;
            }
            control.advance(TopologyPhase::BtreeCycleReconciliation);
            if seen[current as usize] == start {
                let p = pos[current as usize];
                let ghost w = choose|w: int| 0 <= w < path@.len() && path@[w] == current;
                assert(p == w);
                let mut cycle: Vec<u32> = Vec::new();
                let mut q: usize = p;
                while q < path.len()
                    invariant
                        p <= q <= path@.len(),
                        cycle@ == path@.subrange(p as int, q as int),
                    decreases path@.len() - q,
                {
                    cycle.push(path[q]);
                    q = q + 1;
                }
                proof {
                    let c = cycle@;
                    assert(c.len() >= 1);
                    assert forall|i: int| 0 <= i < c.len() - 1 implies parent_of(claims@, #[trigger] c[i] as int) == c[i + 1] by {
                        assert(c[i] == path@[p + i]);
                        assert(c[i + 1] == path@[p + i + 1]);
                    }
                    assert(c.last() == path@.last());
                    assert(c[0] == current);
                    assert forall|i: int, j: int| 0 <= i < c.len() && 0 <= j < c.len() && i != j implies c[i] != c[j] by {
                        assert(c[i] == path@[p + i] && c[j] == path@[p + j]);
                    }
                }
                let ghost earlier = cycles@;
                cycles.push(cycle);
                proof {
                    assert forall|c: int| 0 <= c < cycles@.len() implies parent_cycle(claims@, (#[trigger] cycles@[c])@, page_count as int) by {}
                    lemma_reported_push(earlier, cycle);
                    assert(cycle@.contains(current)) by {
                        assert(cycle@[0] == current);
                    }
                    lemma_closed_reported(claims@, page_count as int, path@, current, cycles@);
                    assert(done_reported(done@, cycles@, claims@, page_count as int));
                    closed = true;
                }
                break;
            }
            let ghost before = path@;
            seen.set(current as usize, start);
            pos.set(current as usize, path.len());
            path.push(current);
            proof {
                assert forall|u: int| 0 <= u <= page_count implies (#[trigger] seen@[u] == start <==> path@.contains(u as u32)) by {
                    if u == current as int {
                        assert(path@[before.len() as int] == current);
                    } else {
                        if path@.contains(u as u32) {
                            let i = choose|i: int| 0 <= i < path@.len() && path@[i] == u as u32;
                            assert(i < before.len());
                            assert(before.contains(u as u32));
                        }
                        if before.contains(u as u32) {
                            let i = choose|i: int| 0 <= i < before.len() && before[i] == u as u32;
                            assert(path@[i] == u as u32);
                        }
                    }
                }
                assert forall|i: int| 0 <= i < path@.len() implies #[trigger] pos@[path@[i] as int] == i by {
                    if i < before.len() {
                        assert(path@[i] == before[i]);
                        assert(before.contains(before[i]));
                        assert(before[i] != current);
                    }
                }
                assert forall|i: int, j: int| 0 <= i < path@.len() && 0 <= j < path@.len() && i != j implies path@[i] != path@[j] by {
                    if i < before.len() && j < before.len() {
                    } else if i < before.len() {
                        assert(before.contains(before[i]));
                    } else if j < before.len() {
                        assert(before.contains(before[j]));
                    }
                }
                lemma_parent_within(claims@, claims@.len() as int, current as int, page_count as int);
            }
            current = parent[current as usize];
        }
        proof {
            if !closed {
                lemma_walk_reported(claims@, page_count as int, path@, current, done@, cycles@);
            }
        }
        let mut m: usize = 0;
        while m < path.len()
            invariant
                page_count < u32::MAX,
                1 <= start <= page_count,
                m <= path@.len(),
                path@.len() > 0,
                path@[0] == start,
                path_reported(path@, cycles@, claims@, page_count as int),
                done_reported(done@, cycles@, claims@, page_count as int),
                forall|u: int| 1 <= u < start ==> #[trigger] done@[u],
                forall|i: int| 0 <= i < m ==> done@[#[trigger] path@[i] as int],
                forall|u: int| 0 <= u <= page_count ==> #[trigger] parent@[u] == parent_of(claims@, u),
                claims_within(claims@, page_count as int),
                parent@.len() == page_count + 1,
                seen@.len() == page_count + 1,
                pos@.len() == page_count + 1,
                forall|u: int| 0 <= u <= page_count ==> #[trigger] seen@[u] <= start,
                done@.len() == page_count + 1,
                forall|i: int| 0 <= i < path@.len() ==> 1 <= #[trigger] path@[i] <= page_count,
                forall|c: int| 0 <= c < cycles@.len() ==> parent_cycle(claims@, (#[trigger] cycles@[c])@, page_count as int),
                control_kept(*old(control), *control),
                control.phase == old(control).phase,
                control.phase_complete == old(control).phase_complete,
            decreases path@.len() - m,
        {
            if control.stopped() {
                return cycles;
            }
            let ghost before = done@;
            done.set(path[m] as usize, true);
            proof {
                assert forall|u: int| 0 <= u < done@.len() && #[trigger] done@[u] && on_parent_cycle(claims@, u as u32, page_count as int)
                    implies reported_cycle(cycles@, u as u32) by {
                    if u != path@[m as int] as int {
                        assert(before[u]);
                    } else {
                        assert(on_parent_cycle(claims@, path@[m as int], page_count as int));
                    }
                }
                assert forall|i: int| 0 <= i < m + 1 implies done@[#[trigger] path@[i] as int] by {
                    if i < m {
                        assert(before[path@[i] as int]);
                    }
                }
            }
            control.advance(TopologyPhase::BtreeCycleReconciliation);
            m = m + 1;
        }
        proof {
            assert(done@[path@[0] as int]);
        }
        control.advance(TopologyPhase::BtreeCycleReconciliation);
        start = start + 1;
    }
    proof {
        assert forall|u: u32| 1 <= u <= page_count && #[trigger] on_parent_cycle(claims@, u, page_count as int)
            implies reported_cycle(cycles@, u) by {
            assert(done@[u as int]);
        }
    }
    cycles
}


/// The positions below `n` that satisfy `pred`, in increasing order.
pub open spec fn positions_where(pred: spec_fn(int) -> bool, n: int) -> Seq<usize>
    decreases n,
{
    if n <= 0 {
        seq![]
    } else {
        let rest = positions_where(pred, n - 1);
        if pred(n - 1) {
            rest.push((n - 1) as usize)
        } else {
            rest
        }
    }
}

pub proof fn lemma_positions_where(pred: spec_fn(int) -> bool, n: int)
    requires
        0 <= n <= usize::MAX,
    ensures
        forall|k: int| 0 <= k < positions_where(pred, n).len() ==> (#[trigger] positions_where(pred, n)[k]) < n
            && pred(positions_where(pred, n)[k] as int),
        forall|j: int| 0 <= j < n ==> (pred(j) <==> #[trigger] listed(positions_where(pred, n), 0, positions_where(pred, n).len() as int, j)),
        positions_where(pred, n).no_duplicates(),
        forall|a: int, b: int| 0 <= a < b < positions_where(pred, n).len()
            ==> (#[trigger] positions_where(pred, n)[a]) < (#[trigger] positions_where(pred, n)[b]),
    decreases n,
{
    if n > 0 {
        lemma_positions_where(pred, n - 1);
        let rest = positions_where(pred, n - 1);
        let all = positions_where(pred, n);
        assert forall|j: int| 0 <= j < n implies (pred(j) <==> #[trigger] listed(all, 0, all.len() as int, j)) by {
            if listed(all, 0, all.len() as int, j) {
                let w = choose|w: int| 0 <= w < all.len() && #[trigger] all[w] as int == j;
                if w < rest.len() {
                    assert(all[w] == rest[w]);
                }
            }
            if j < n - 1 {
                if listed(rest, 0, rest.len() as int, j) {
                    let w = choose|w: int| 0 <= w < rest.len() && #[trigger] rest[w] as int == j;
                    assert(all[w] == rest[w]);
                }
            } else if pred(j) {
                assert(all[rest.len() as int] as int == j);
                assert(listed(all, 0, all.len() as int, j));
            }
        }
        assert forall|a: int, b: int| 0 <= a < b < all.len() implies (#[trigger] all[a]) < (#[trigger] all[b]) by {
            if b < rest.len() {
                assert(all[a] == rest[a] && all[b] == rest[b]);
            } else {
                assert(all[a] == rest[a]);
            }
        }
    }
}

/// The last of the first `n` cycles that holds page `p`.
pub open spec fn cycle_index(cycles: Seq<Seq<u32>>, p: int, n: int) -> Option<int>
    decreases n,
{
    if n <= 0 {
        None
    } else if cycles[n - 1].contains(p as u32) {
        Some(n - 1)
    } else {
        cycle_index(cycles, p, n - 1)
    }
}

/// Validated claim `j` leads between two pages of the same cycle.
pub open spec fn cyclic(claims: Seq<RelationshipClaim>, cycles: Seq<Seq<u32>>, j: int) -> bool {
    &&& claims[j].state == RelationshipState::Validated
    &&& cycle_index(cycles, spec_source_page(claims[j].source) as int, cycles.len() as int) is Some
    &&& cycle_index(cycles, spec_source_page(claims[j].source) as int, cycles.len() as int)
        == cycle_index(cycles, child_page(claims[j]), cycles.len() as int)
}

/// Claim `j` leads between pages of cycle `c`.
pub open spec fn member_of(claims: Seq<RelationshipClaim>, cycles: Seq<Seq<u32>>, c: int) -> spec_fn(int) -> bool {
    |j: int| cyclic(claims, cycles, j) && cycle_index(cycles, child_page(claims[j]), cycles.len() as int) == Some(c)
}

/// The positions of the claims that lead between pages of cycle `c`.
pub open spec fn cycle_members(claims: Seq<RelationshipClaim>, cycles: Seq<Seq<u32>>, c: int) -> Seq<usize> {
    positions_where(member_of(claims, cycles, c), claims.len() as int)
}

/// One report for each of the first `upto` cycles, in order.
pub open spec fn cycle_reports(claims: Seq<RelationshipClaim>, cycles: Seq<Seq<u32>>, upto: int) -> Seq<DiagnosticView>
    decreases upto,
{
    if upto <= 0 {
        seq![]
    } else {
        cycle_reports(claims, cycles, upto - 1).push(
            spec_conflict(claims, cycle_members(claims, cycles, upto - 1), DiagnosticCode::BtreeCycle, Containment::TraversalStopped),
        )
    }
}

/// `claim` withheld as a link of a cycle.
pub open spec fn withheld_cycle(claim: RelationshipClaim) -> RelationshipClaim {
    RelationshipClaim { state: RelationshipState::Conflicting, stop_reason: Some(TraversalStopReason::Cycle), ..claim }
}

pub open spec fn cycle_views(cycles: Seq<Vec<u32>>) -> Seq<Seq<u32>> {
    cycles.map_values(|c: Vec<u32>| c@)
}

/// Which cycle each page lies on, the last one when several hold it.
fn cycle_of_pages(cycles: &Vec<Vec<u32>>, page_count: usize, control: &mut WorkControl) -> (r: Option<Vec<Option<usize>>>)
    requires
        page_count < u32::MAX,
        forall|c: int, i: int| 0 <= c < cycles@.len() && 0 <= i < cycles@[c]@.len() ==> #[trigger] cycles@[c]@[i] <= page_count,
    ensures
        control_kept(*old(control), *final(control)),
        final(control).phase == old(control).phase,
        final(control).phase_complete == old(control).phase_complete,
        r is None ==> final(control).is_stopped(),
        r matches Some(by_page) ==> by_page@.len() == page_count + 1 && forall|p: int| 0 <= p <= page_count ==>
            (#[trigger] by_page@[p]) == match cycle_index(cycle_views(cycles@), p, cycles@.len() as int) {
                Some(c) => Some(c as usize),
                None => None,
            },
{
    let ghost cs = cycle_views(cycles@);
    let mut by_page: Vec<Option<usize>> = Vec::new();
    let mut t: usize = 0;
    while t <= page_count
        invariant
            page_count < u32::MAX,
            t <= page_count + 1,
            by_page@.len() == t,
            forall|u: int| 0 <= u < t ==> #[trigger] by_page@[u] is None,
        decreases page_count + 1 - t,
    {
        by_page.push(None);
        t = t + 1;
    }
    let mut c: usize = 0;
    while c < cycles.len()
        invariant
            page_count < u32::MAX,
            cs == cycle_views(cycles@),
            forall|x: int, i: int| 0 <= x < cycles@.len() && 0 <= i < cycles@[x]@.len() ==> #[trigger] cycles@[x]@[i] <= page_count,
            c <= cycles@.len(),
            by_page@.len() == page_count + 1,
            forall|p: int| 0 <= p <= page_count ==> (#[trigger] by_page@[p]) == match cycle_index(cs, p, c as int) {
                Some(x) => Some(x as usize),
                None => None,
            },
            control_kept(*old(control), *control),
            control.phase == old(control).phase,
            control.phase_complete == old(control).phase_complete,
        decreases cycles@.len() - c,
    {
        let cycle = &cycles[c];
        let mut i: usize = 0;
        while i < cycle.len()
            invariant
                page_count < u32::MAX,
                cs == cycle_views(cycles@),
                c < cycles@.len(),
                *cycle == cycles@[c as int],
                forall|x: int, k: int| 0 <= x < cycles@.len() && 0 <= k < cycles@[x]@.len() ==> #[trigger] cycles@[x]@[k] <= page_count,
                i <= cycle@.len(),
                by_page@.len() == page_count + 1,
                forall|p: int| 0 <= p <= page_count ==> (#[trigger] by_page@[p]) == if cycle@.subrange(0, i as int).contains(p as u32) {
                    Some(c)
                } else {
                    match cycle_index(cs, p, c as int) {
                        Some(x) => Some(x as usize),
                        None => None,
                    }
                },
                control_kept(*old(control), *control),
                control.phase == old(control).phase,
                control.phase_complete == old(control).phase_complete,
            decreases cycle@.len() - i,
        {
            if control.stopped() {
                return None;
            }
            let page = cycle[i];
            assert(cycles@[c as int]@[i as int] == page);
            let ghost before = by_page@;
            by_page.set(page as usize, Some(c));
            proof {
                assert forall|p: int| 0 <= p <= page_count implies (#[trigger] by_page@[p]) == if cycle@.subrange(0, i + 1).contains(p as u32) {
                    Some(c)
                } else {
                    match cycle_index(cs, p, c as int) {
                        Some(x) => Some(x as usize),
                        None => None,
                    }
                } by {
                    if p == page as int {
                        assert(cycle@.subrange(0, i + 1)[i as int] == page);
                    } else {
                        assert(by_page@[p] == before[p]);
                        if cycle@.subrange(0, i + 1).contains(p as u32) {
                            let w = choose|w: int| 0 <= w < i + 1 && #[trigger] cycle@.subrange(0, i + 1)[w] == p as u32;
                            assert(w != i);
                            assert(cycle@.subrange(0, i as int)[w] == p as u32);
                        }
                        if cycle@.subrange(0, i as int).contains(p as u32) {
                            let w = choose|w: int| 0 <= w < i && #[trigger] cycle@.subrange(0, i as int)[w] == p as u32;
                            assert(cycle@.subrange(0, i + 1)[w] == p as u32);
                        }
                    }
                }
            }
            control.advance(TopologyPhase::BtreeCycleReconciliation);
            i = i + 1;
        }
        proof {
            assert(cycle@.subrange(0, i as int) =~= cycle@);
            assert(cs[c as int] == cycle@);
        }
        c = c + 1;
    }
    Some(by_page)
}


proof fn lemma_cycle_reports_len(claims: Seq<RelationshipClaim>, cycles: Seq<Seq<u32>>, n: int)
    requires
        0 <= n,
    ensures
        cycle_reports(claims, cycles, n).len() == n,
    decreases n,
{
    if n > 0 {
        lemma_cycle_reports_len(claims, cycles, n - 1);
    }
}

proof fn lemma_cycle_index_bounds(cycles: Seq<Seq<u32>>, p: int, n: int)
    requires
        0 <= n <= cycles.len(),
    ensures
        cycle_index(cycles, p, n) matches Some(c) ==> 0 <= c < n && cycles[c].contains(p as u32),
    decreases n,
{
    if n > 0 {
        lemma_cycle_index_bounds(cycles, p, n - 1);
    }
}

/// The cycles found, with what marking them does to the claims: the claims
/// that lead between pages of one cycle are withheld, one report per cycle.
pub open spec fn cycles_marked(
    olds: Seq<RelationshipClaim>,
    finals: Seq<RelationshipClaim>,
    reports: Seq<StructuralDiagnostic>,
    cycles: Seq<Seq<u32>>,
    page_count: int,
    stopped: bool,
) -> bool {
    &&& forall|c: int| 0 <= c < cycles.len() ==> parent_cycle(olds, #[trigger] cycles[c], page_count)
    &&& finals.len() == olds.len()
    &&& forall|j: int| 0 <= j < olds.len() ==> #[trigger] finals[j] == olds[j]
        || (cyclic(olds, cycles, j) && finals[j] == withheld_cycle(olds[j]))
    &&& !stopped ==> {
        &&& forall|j: int| 0 <= j < olds.len() ==> #[trigger] finals[j] == if cyclic(olds, cycles, j) {
            withheld_cycle(olds[j])
        } else {
            olds[j]
        }
        &&& reports.len() == cycles.len()
        &&& forall|k: int| 0 <= k < reports.len() ==> (#[trigger] reports[k])@ == cycle_reports(olds, cycles, cycles.len() as int)[k]
    }
}

proof fn lemma_nothing_marked(olds: Seq<RelationshipClaim>, finals: Seq<RelationshipClaim>, cycles: Seq<Seq<u32>>, page_count: int)
    requires
        finals == olds,
        forall|c: int| 0 <= c < cycles.len() ==> parent_cycle(olds, #[trigger] cycles[c], page_count),
    ensures
        cycles_marked(olds, finals, seq![], cycles, page_count, true),
{
}

/// Finds the cycles of the parent relation and withholds every validated
/// claim that leads between pages of one cycle, with one report per cycle.
pub fn mark_btree_cycles(page_count: usize, claims: &mut Vec<RelationshipClaim>, control: &mut WorkControl) -> (r: Vec<StructuralDiagnostic>)
    requires
        page_count < u32::MAX,
        claims_within(old(claims)@, page_count as int),
        forall|j: int| 0 <= j < old(claims)@.len() && (#[trigger] old(claims)@[j]).state == RelationshipState::Validated
            ==> old(claims)@[j].stop_reason is None,
    ensures
        control_kept(*old(control), *final(control)),
        exists|cycles: Seq<Seq<u32>>| #[trigger] cycles_marked(old(claims)@, final(claims)@, r@, cycles, page_count as int, final(control).is_stopped()),
        !final(control).is_stopped() ==> final(control).phase == TopologyPhase::BtreeCycleReconciliation.spec_code()
            && final(control).phase_complete,
{
    let ghost olds = claims@;
    control.begin_phase(TopologyPhase::BtreeCycleReconciliation, None);
    let ghost begun = *control;
    let cycles = btree_cycles(page_count, claims, control);
    let ghost cs = cycle_views(cycles@);
    assert(forall|c: int| 0 <= c < cs.len() ==> parent_cycle(olds, #[trigger] cs[c], page_count as int));
    if control.stopped() {
        assert(claims@ == olds);
        assert(forall|j: int| 0 <= j < olds.len() ==> #[trigger] claims@[j] == olds[j]);
        assert(cycles_marked(olds, claims@, seq![], cs, page_count as int, true));
        return Vec::new();
    }
    assert forall|c: int, i: int| 0 <= c < cycles@.len() && 0 <= i < cycles@[c]@.len() implies #[trigger] cycles@[c]@[i] <= page_count by {
        assert(cs[c] == cycles@[c]@);
        assert(parent_cycle(olds, cs[c], page_count as int));
    }
    let by_page = match cycle_of_pages(&cycles, page_count, control) {
        Some(by_page) => by_page,
        None => {
            proof {
                lemma_nothing_marked(olds, claims@, cs, page_count as int);
            }
            return Vec::new();
        },
    };
    let mut buckets: Vec<Vec<usize>> = Vec::new();
    let mut c: usize = 0;
    while c < cycles.len()
        invariant
            c <= cycles@.len(),
            buckets@.len() == c,
            forall|x: int| 0 <= x < c ==> (#[trigger] buckets@[x])@.len() == 0,
        decreases cycles@.len() - c,
    {
        buckets.push(Vec::new());
        c = c + 1;
    }
    let mut k: usize = 0;
    while k < claims.len()
        invariant
            claims@ == olds,
            olds == old(claims)@,
            page_count < u32::MAX,
            claims_within(olds, page_count as int),
            cs == cycle_views(cycles@),
            k <= olds.len(),
            by_page@.len() == page_count + 1,
            forall|p: int| 0 <= p <= page_count ==> (#[trigger] by_page@[p]) == match cycle_index(cs, p, cs.len() as int) {
                Some(x) => Some(x as usize),
                None => None,
            },
            buckets@.len() == cs.len(),
            cs.len() <= usize::MAX,
            forall|x: int| 0 <= x < cs.len() ==> parent_cycle(olds, #[trigger] cs[x], page_count as int),
            forall|x: int| 0 <= x < cs.len() ==> (#[trigger] buckets@[x])@ == positions_where(member_of(olds, cs, x), k as int),
            control_kept(*old(control), *control),
            !control.is_stopped() ==> control.phase == begun.phase && control.phase_complete == begun.phase_complete && !begun.is_stopped(),
        decreases olds.len() - k,
    {
        if control.stopped() {
            proof {
                lemma_nothing_marked(olds, claims@, cs, page_count as int);
            }
            return Vec::new();
        }
        let claim = &claims[k];
        if claim.state == RelationshipState::Validated {
            assert(olds[k as int].state == RelationshipState::Validated);
            let source = source_page(&claim.source) as usize;
            let target = match claim.target {
                Some(p) => p.page_number as usize,
                None => 0,
            };
            let sc = by_page[source];
            let tc = by_page[target];
            proof {
                lemma_cycle_index_bounds(cs, source as int, cs.len() as int);
                lemma_cycle_index_bounds(cs, target as int, cs.len() as int);
            }
            assert(cs.len() == cycles@.len());
            let same = match (sc, tc) {
                (Some(a), Some(b)) => a == b,
                _ => false,
            };
            if let Some(x) = sc {
                if same {
                    assert(source as int == spec_source_page(olds[k as int].source) as int);
                    assert(target as int == child_page(olds[k as int]));
                    assert(cycle_index(cs, source as int, cs.len() as int) == Some(x as int));
                    assert(cycle_index(cs, target as int, cs.len() as int) == Some(x as int));
                    assert(cyclic(olds, cs, k as int));
                    assert(member_of(olds, cs, x as int)(k as int));
                    let ghost before = buckets@;
                    let mut bucket: Vec<usize> = Vec::new();
                    std::mem::swap(&mut bucket, &mut buckets[x]);
                    bucket.push(k);
                    std::mem::swap(&mut bucket, &mut buckets[x]);
                    assert forall|y: int| 0 <= y < cs.len() implies (#[trigger] buckets@[y])@ == positions_where(member_of(olds, cs, y), k + 1) by {
                        if y != x {
                            assert(buckets@[y] == before[y]);
                            assert(!member_of(olds, cs, y)(k as int));
                        }
                    }
                } else {
                    assert forall|y: int| 0 <= y < cs.len() implies (#[trigger] buckets@[y])@ == positions_where(member_of(olds, cs, y), k + 1) by {
                        assert(!member_of(olds, cs, y)(k as int));
                    }
                }
            } else {
                assert forall|y: int| 0 <= y < cs.len() implies (#[trigger] buckets@[y])@ == positions_where(member_of(olds, cs, y), k + 1) by {
                    assert(!member_of(olds, cs, y)(k as int));
                }
            }
        } else {
            assert forall|y: int| 0 <= y < cs.len() implies (#[trigger] buckets@[y])@ == positions_where(member_of(olds, cs, y), k + 1) by {
                assert(!member_of(olds, cs, y)(k as int));
            }
        }
        control.advance(TopologyPhase::BtreeCycleReconciliation);
        k = k + 1;
    }
    let mut diagnostics: Vec<StructuralDiagnostic> = Vec::new();
    proof {
        assert forall|j: int| 0 <= j < olds.len() implies #[trigger] claims@[j] == if cyclic(olds, cs, j)
            && cycle_index(cs, child_page(olds[j]), cs.len() as int).unwrap() < 0 {
            withheld_cycle(olds[j])
        } else {
            olds[j]
        } by {
            lemma_cycle_index_bounds(cs, child_page(olds[j]), cs.len() as int);
        }
        assert(buckets@.len() == cs.len());
        assert forall|x: int| 0 <= x < cs.len() implies (#[trigger] buckets@[x])@ == cycle_members(olds, cs, x) by {}
    }
    let mut c: usize = 0;
    while c < buckets.len()
        invariant
            olds == old(claims)@,
            claims@.len() == olds.len(),
            cs == cycle_views(cycles@),
            forall|x: int| 0 <= x < cs.len() ==> parent_cycle(olds, #[trigger] cs[x], page_count as int),
            c <= cs.len(),
            buckets@.len() == cs.len(),
            forall|j: int| 0 <= j < olds.len() && (#[trigger] olds[j]).state == RelationshipState::Validated ==> olds[j].stop_reason is None,
            forall|x: int| 0 <= x < cs.len() ==> (#[trigger] buckets@[x])@ == cycle_members(olds, cs, x),
            forall|j: int| 0 <= j < olds.len() ==> #[trigger] claims@[j] == if cyclic(olds, cs, j)
                && cycle_index(cs, child_page(olds[j]), cs.len() as int).unwrap() < c {
                withheld_cycle(olds[j])
            } else {
                olds[j]
            },
            diagnostics@.len() == c,
            forall|m: int| 0 <= m < c ==> (#[trigger] diagnostics@[m])@ == cycle_reports(olds, cs, c as int)[m],
            control_kept(*old(control), *control),
            !control.is_stopped() ==> control.phase == begun.phase && control.phase_complete == begun.phase_complete && !begun.is_stopped(),
        decreases cs.len() - c,
    {
        let ghost before = claims@;
        let ghost members = cycle_members(olds, cs, c as int);
        proof {
            assert(olds.len() == old(claims).len());
            lemma_positions_where(member_of(olds, cs, c as int), olds.len() as int);
            assert forall|m: int| 0 <= m < members.len() implies before[#[trigger] members[m] as int] == olds[members[m] as int] by {
                let j = members[m] as int;
                assert(member_of(olds, cs, c as int)(j));
            }
        }
        let found = conflicting_claims_bounded(
            claims,
            &buckets[c],
            DiagnosticCode::BtreeCycle,
            TraversalStopReason::Cycle,
            Containment::TraversalStopped,
            control,
            TopologyPhase::BtreeCycleReconciliation,
        );
        let d = match found {
            Some(d) => d,
            None => {
                proof {
                    assert forall|j: int| 0 <= j < olds.len() implies #[trigger] claims@[j] == olds[j]
                        || (cyclic(olds, cs, j) && claims@[j] == withheld_cycle(olds[j])) by {
                        assert(claims@[j] == before[j]);
                    }
                    assert(cycles_marked(olds, claims@, diagnostics@, cs, page_count as int, control.is_stopped()));
                }
                return diagnostics;
            },
        };
        proof {
            assert(members.map_values(|i: usize| before[i as int].evidence) =~= members.map_values(|i: usize| olds[i as int].evidence));
            assert(members.map_values(|i: usize| before[i as int].id) =~= members.map_values(|i: usize| olds[i as int].id));
            assert forall|j: int| 0 <= j < olds.len() implies #[trigger] claims@[j] == if cyclic(olds, cs, j)
                && cycle_index(cs, child_page(olds[j]), cs.len() as int).unwrap() < c + 1 {
                withheld_cycle(olds[j])
            } else {
                olds[j]
            } by {
                if listed(members, 0, members.len() as int, j) {
                    assert(member_of(olds, cs, c as int)(j));
                    assert(before[j] == olds[j]);
                } else if cyclic(olds, cs, j) && cycle_index(cs, child_page(olds[j]), cs.len() as int).unwrap() == c {
                    assert(member_of(olds, cs, c as int)(j));
                }
            }
        }
        diagnostics.push(d);
        proof {
            lemma_cycle_reports_len(olds, cs, c as int);
            assert(cycle_reports(olds, cs, c + 1) == cycle_reports(olds, cs, c as int).push(
                spec_conflict(olds, members, DiagnosticCode::BtreeCycle, Containment::TraversalStopped)));
            assert forall|m: int| 0 <= m < c + 1 implies (#[trigger] diagnostics@[m])@ == cycle_reports(olds, cs, c + 1)[m] by {}
        }
        c = c + 1;
    }
    proof {
        assert forall|j: int| 0 <= j < olds.len() implies #[trigger] claims@[j] == if cyclic(olds, cs, j) {
            withheld_cycle(olds[j])
        } else {
            olds[j]
        } by {
            if cyclic(olds, cs, j) {
                lemma_cycle_index_bounds(cs, child_page(olds[j]), cs.len() as int);
            }
        }
    }
    control.finish_phase(TopologyPhase::BtreeCycleReconciliation);
    assert(cycles_marked(olds, claims@, diagnostics@, cs, page_count as int, control.is_stopped()));
    diagnostics
}


/// Every claim that cycle marking withheld leads between two pages of one
/// genuine cycle of parents: a cycle stops only the links that close it.
pub proof fn law_cycle_withholding_sound(
    olds: Seq<RelationshipClaim>,
    finals: Seq<RelationshipClaim>,
    reports: Seq<StructuralDiagnostic>,
    cycles: Seq<Seq<u32>>,
    page_count: int,
    stopped: bool,
    j: int,
)
    requires
        cycles_marked(olds, finals, reports, cycles, page_count, stopped),
        0 <= j < olds.len(),
        finals[j] != olds[j],
    ensures
        finals[j] == withheld_cycle(olds[j]),
        exists|c: int| 0 <= c < cycles.len() && parent_cycle(olds, #[trigger] cycles[c], page_count)
            && cycles[c].contains(spec_source_page(olds[j].source)) && cycles[c].contains(child_page(olds[j]) as u32),
{
    assert(cyclic(olds, cycles, j));
    let c = cycle_index(cycles, spec_source_page(olds[j].source) as int, cycles.len() as int).unwrap();
    lemma_cycle_index_bounds(cycles, spec_source_page(olds[j].source) as int, cycles.len() as int);
    lemma_cycle_index_bounds(cycles, child_page(olds[j]), cycles.len() as int);
    assert(parent_cycle(olds, cycles[c], page_count));
}

/// The diagnostics that validating the first `n` claims one by one reports.
pub open spec fn verdict_reports(page_count: u32, pages: Seq<PageEntity>, claims: Seq<RelationshipClaim>, n: int) -> Seq<DiagnosticView>
    decreases n,
{
    if n <= 0 {
        seq![]
    } else {
        let rest = verdict_reports(page_count, pages, claims, n - 1);
        let verdict = btree_verdict(page_count, pages, claims[n - 1]);
        match verdict.1 {
            Some(code) => rest.push(spec_diagnostic(code, verdict.0, Containment::TraversalStopped)),
            None => rest,
        }
    }
}

/// Claims as collected from the inventory: child claims of inventoried
/// pages, each naming a target, none yet settled.
pub open spec fn collected(pages: Seq<PageEntity>, claims: Seq<RelationshipClaim>) -> bool {
    &&& pages.len() < u32::MAX
    &&& forall|j: int| 0 <= j < claims.len() ==> {
        &&& 1 <= spec_source_page((#[trigger] claims[j]).source) <= pages.len()
        &&& claims[j].target is Some
        &&& claims[j].kind == RelationshipKind::BtreeChild
        &&& claims[j].stop_reason is None
    }
}

/// The stages of full validation: each claim settled by its verdict, then
/// duplicate parents withheld, then cycles withheld; the reports of all
/// three, in that order.
pub open spec fn validation_stages(
    page_count: u32,
    pages: Seq<PageEntity>,
    olds: Seq<RelationshipClaim>,
    finals: Seq<RelationshipClaim>,
    reports: Seq<StructuralDiagnostic>,
    settled: Seq<RelationshipClaim>,
    deduplicated: Seq<RelationshipClaim>,
    found: Seq<StructuralDiagnostic>,
    cycles: Seq<Seq<u32>>,
) -> bool {
    &&& settled.len() == olds.len()
    &&& forall|j: int| 0 <= j < olds.len() ==> #[trigger] settled[j] == btree_verdict(page_count, pages, olds[j]).0
    &&& deduplicated.len() == olds.len()
    &&& forall|j: int| 0 <= j < olds.len() ==> #[trigger] deduplicated[j] == if duplicate_parent(settled, j) {
        withheld_parent(settled[j])
    } else {
        settled[j]
    }
    &&& cycles_marked(deduplicated, finals, found, cycles, pages.len() as int, false)
    &&& reports.len() == verdict_reports(page_count, pages, olds, olds.len() as int).len()
        + duplicate_reports(settled, pages.len() + 1 as int).len() + found.len()
    &&& forall|k: int| 0 <= k < reports.len() ==> (#[trigger] reports[k])@ == (verdict_reports(page_count, pages, olds, olds.len() as int)
        + duplicate_reports(settled, pages.len() + 1 as int) + found.map_values(|d: StructuralDiagnostic| d@))[k]
}

/// What full validation makes of the claims, when nothing stops it.
pub open spec fn claims_validated(
    page_count: u32,
    pages: Seq<PageEntity>,
    olds: Seq<RelationshipClaim>,
    finals: Seq<RelationshipClaim>,
    reports: Seq<StructuralDiagnostic>,
) -> bool {
    exists|settled: Seq<RelationshipClaim>, deduplicated: Seq<RelationshipClaim>, found: Seq<StructuralDiagnostic>, cycles: Seq<Seq<u32>>|
        #[trigger] validation_stages(page_count, pages, olds, finals, reports, settled, deduplicated, found, cycles)
}


/// Validates every B-tree child claim, then withholds duplicate parents and
/// cycles. Work that stops part-way leaves no B-tree claim validated.
pub fn validate_btree_claims(page_count: u32, pages: &Vec<PageEntity>, claims: &mut Vec<RelationshipClaim>, control: &mut WorkControl) -> (r: Vec<StructuralDiagnostic>)
    requires
        collected(pages@, old(claims)@),
    ensures
        control_kept(*old(control), *final(control)),
        final(claims)@.len() == old(claims)@.len(),
        final(control).is_stopped() ==> forall|j: int| 0 <= j < final(claims)@.len() ==> (#[trigger] final(claims)@[j]).state != RelationshipState::Validated,
        !final(control).is_stopped() ==> claims_validated(page_count, pages@, old(claims)@, final(claims)@, r@),
{
    let ghost olds = claims@;
    control.begin_phase(TopologyPhase::BtreeClaimValidation, Some(claims.len() as u64));
    let mut diagnostics: Vec<StructuralDiagnostic> = Vec::new();
    let mut index: usize = 0;
    while index < claims.len()
        invariant
            olds == old(claims)@,
            collected(pages@, olds),
            claims@.len() == olds.len(),
            index <= olds.len(),
            forall|j: int| 0 <= j < index ==> #[trigger] claims@[j] == btree_verdict(page_count, pages@, olds[j]).0,
            forall|j: int| index <= j < olds.len() ==> #[trigger] claims@[j] == olds[j],
            diagnostics@.len() == verdict_reports(page_count, pages@, olds, index as int).len(),
            forall|k: int| 0 <= k < diagnostics@.len() ==> (#[trigger] diagnostics@[k])@ == verdict_reports(page_count, pages@, olds, index as int)[k],
            forall|j: int| 0 <= j < olds.len() ==> (#[trigger] claims@[j]).kind == RelationshipKind::BtreeChild,
            control_kept(*old(control), *control),
        decreases olds.len() - index,
    {
        if control.stopped() {
            downgrade_validated_claims(claims, RelationshipKind::BtreeChild);
            return diagnostics;
        }
        let mut claim = claims[index];
        assert(claim == olds[index as int]);
        let found = validate_btree_claim(page_count, pages, &mut claim);
        let ghost before = claims@;
        claims.set(index, claim);
        let ghost prior = diagnostics@;
        match found {
            Some(d) => {
                diagnostics.push(d);
            },
            None => {},
        }
        proof {
            assert forall|j: int| 0 <= j < olds.len() implies (#[trigger] claims@[j]).kind == RelationshipKind::BtreeChild by {
                if j != index {
                    assert(claims@[j] == before[j]);
                }
            }
            assert forall|k: int| 0 <= k < diagnostics@.len() implies (#[trigger] diagnostics@[k])@ == verdict_reports(page_count, pages@, olds, index + 1)[k] by {
                if k < prior.len() {
                    assert(diagnostics@[k] == prior[k]);
                }
            }
        }
        control.advance(TopologyPhase::BtreeClaimValidation);
        index = index + 1;
    }
    control.finish_phase(TopologyPhase::BtreeClaimValidation);
    let ghost settled = claims@;
    let ghost verdicts = diagnostics@;
    proof {
        assert forall|j: int| 0 <= j < settled.len() && (#[trigger] settled[j]).state == RelationshipState::Validated implies
            (settled[j].target matches Some(p) && p.page_number <= pages@.len() && settled[j].stop_reason is None
                && spec_source_page(settled[j].source) <= pages@.len()) by {
            assert(settled[j] == btree_verdict(page_count, pages@, olds[j]).0);
            assert(1 <= spec_source_page(olds[j].source) <= pages@.len());
        }
    }
    let mut duplicates: Vec<StructuralDiagnostic> = Vec::new();
    if !control.stopped() {
        duplicates = mark_duplicate_btree_parents(pages.len(), claims, control);
    }
    let ghost deduplicated = claims@;
    let mut cycles_found: Vec<StructuralDiagnostic> = Vec::new();
    if !control.stopped() {
        proof {
            assert forall|j: int| 0 <= j < deduplicated.len() && (#[trigger] deduplicated[j]).state == RelationshipState::Validated implies
                (deduplicated[j].target matches Some(p) && p.page_number <= pages@.len() && deduplicated[j].stop_reason is None
                    && spec_source_page(deduplicated[j].source) <= pages@.len()) by {
                if !duplicate_parent(settled, j) {
                    assert(deduplicated[j] == settled[j]);
                }
            }
        }
        cycles_found = mark_btree_cycles(pages.len(), claims, control);
    }
    let ghost marked = claims@;
    let ghost found = cycles_found@;
    if control.stopped() {
        let ghost before = claims@;
        downgrade_validated_claims(claims, RelationshipKind::BtreeChild);
        proof {
            assert forall|j: int| 0 <= j < claims@.len() implies (#[trigger] claims@[j]).state != RelationshipState::Validated by {
                assert(claims@[j] == downgraded(before[j], RelationshipKind::BtreeChild));
                assert(olds[j].kind == RelationshipKind::BtreeChild);
                assert(before[j].kind == olds[j].kind);
            }
        }
        return diagnostics;
    }
    let ghost verdict_count = diagnostics@.len();
    diagnostics.append(&mut duplicates);
    diagnostics.append(&mut cycles_found);
    proof {
        let cycles = choose|cycles: Seq<Seq<u32>>| #[trigger] cycles_marked(deduplicated, marked, found, cycles, pages@.len() as int, false);
        assert(validation_stages(page_count, pages@, olds, claims@, diagnostics@, settled, deduplicated, found, cycles));
    }
    diagnostics
}


/// A validated claim links page `a` to page `b`.
pub open spec fn linked_by(claims: Seq<RelationshipClaim>, a: u32, b: u32) -> bool {
    exists|j: int|
        0 <= j < claims.len() && (#[trigger] claims[j]).state == RelationshipState::Validated && spec_source_page(claims[j].source) == a
            && claims[j].target == Some(PageIdentity { page_number: b })
}

/// Each page of `prefix` is linked to the next by a validated claim.
pub open spec fn validated_chain(claims: Seq<RelationshipClaim>, prefix: Seq<PageIdentity>) -> bool {
    forall|i: int| 0 <= i < prefix.len() - 1 ==> linked_by(claims, (#[trigger] prefix[i]).page_number, prefix[i + 1].page_number)
}

/// Some validated claim names page `p` as a child.
pub open spec fn has_parent(claims: Seq<RelationshipClaim>, p: u32) -> bool {
    exists|j: int|
        0 <= j < claims.len() && (#[trigger] claims[j]).state == RelationshipState::Validated
            && claims[j].target == Some(PageIdentity { page_number: p })
}

/// Page `root` starts a tree: a B-tree page that no validated claim names as
/// a child; when the inventory is incomplete, only page one qualifies.
pub open spec fn tree_root(pages: Seq<PageEntity>, claims: Seq<RelationshipClaim>, complete: bool, root: u32) -> bool {
    &&& 1 <= root <= pages.len()
    &&& pages[root - 1].detail.kind is Some
    &&& !has_parent(claims, root)
    &&& complete || root == 1
}

/// Claim `j` leads from page `p`.
pub open spec fn from_page(claims: Seq<RelationshipClaim>, p: int) -> spec_fn(int) -> bool {
    |j: int| spec_source_page(claims[j].source) == p
}

/// `t` follows validated links down from a tree root, and ends where the
/// last page has no claims, or at the claim it names.
pub open spec fn sound_btree_traversal(t: TraversalView, pages: Seq<PageEntity>, claims: Seq<RelationshipClaim>, complete: bool) -> bool {
    &&& t.kind == TraversalKind::Btree
    &&& t.validated_prefix.len() >= 1
    &&& t.origin == EntityIdentity::Page { page_number: t.validated_prefix[0].page_number }
    &&& tree_root(pages, claims, complete, t.validated_prefix[0].page_number)
    &&& validated_chain(claims, t.validated_prefix)
    &&& match t.stop {
        None => forall|j: int| 0 <= j < claims.len() ==> spec_source_page((#[trigger] claims[j]).source) != t.validated_prefix.last().page_number,
        Some(stop) => exists|j: int|
            0 <= j < claims.len() && spec_source_page((#[trigger] claims[j]).source) == t.validated_prefix.last().page_number
                && stop.claim_id == claims[j].id && stop.intended_target == claims[j].target,
    }
}

/// Claims that a traversal can follow: each leads from an inventoried page
/// and names a target, validated ones an inventoried page, and every claim
/// that did not validate says why.
pub open spec fn traversable(pages: Seq<PageEntity>, claims: Seq<RelationshipClaim>) -> bool {
    &&& numbered(pages)
    &&& forall|j: int| 0 <= j < claims.len() ==> {
        &&& 1 <= spec_source_page((#[trigger] claims[j]).source) <= pages.len()
        &&& claims[j].target is Some
        &&& claims[j].state == RelationshipState::Validated ==> 1 <= claims[j].target.unwrap().page_number <= pages.len()
        &&& claims[j].state != RelationshipState::Validated ==> claims[j].stop_reason is Some
    }
}

/// For each page, whether a validated claim names it, and the claims that
/// lead from it in claim order; None when work stops.
fn btree_adjacency(page_count: usize, claims: &Vec<RelationshipClaim>, control: &mut WorkControl) -> (r: Option<(Vec<bool>, Vec<Vec<usize>>)>)
    requires
        page_count < u32::MAX,
        forall|j: int| 0 <= j < claims@.len() ==> {
            &&& spec_source_page((#[trigger] claims@[j]).source) <= page_count
            &&& claims@[j].target is Some
            &&& claims@[j].state == RelationshipState::Validated ==> claims@[j].target.unwrap().page_number <= page_count
        },
    ensures
        control_kept(*old(control), *final(control)),
        final(control).phase == old(control).phase,
        final(control).phase_complete == old(control).phase_complete,
        r is None ==> final(control).is_stopped(),
        r matches Some((incoming, outgoing)) ==> {
            &&& incoming@.len() == page_count + 1
            &&& outgoing@.len() == page_count + 1
            &&& forall|p: int| 0 <= p <= page_count ==> (#[trigger] incoming@[p]) == has_parent(claims@, p as u32)
            &&& forall|p: int| 0 <= p <= page_count ==> (#[trigger] outgoing@[p])@ == positions_where(from_page(claims@, p), claims@.len() as int)
        },
{
    let mut incoming: Vec<bool> = Vec::new();
    let mut outgoing: Vec<Vec<usize>> = Vec::new();
    let mut t: usize = 0;
    while t <= page_count
        invariant
            page_count < u32::MAX,
            t <= page_count + 1,
            incoming@.len() == t,
            outgoing@.len() == t,
            forall|u: int| 0 <= u < t ==> !(#[trigger] incoming@[u]),
            forall|u: int| 0 <= u < t ==> (#[trigger] outgoing@[u])@.len() == 0,
        decreases page_count + 1 - t,
    {
        incoming.push(false);
        outgoing.push(Vec::new());
        t = t + 1;
    }
    let mut k: usize = 0;
    while k < claims.len()
        invariant
            page_count < u32::MAX,
            forall|j: int| 0 <= j < claims@.len() ==> {
                &&& spec_source_page((#[trigger] claims@[j]).source) <= page_count
                &&& claims@[j].target is Some
                &&& claims@[j].state == RelationshipState::Validated ==> claims@[j].target.unwrap().page_number <= page_count
            },
            k <= claims@.len(),
            incoming@.len() == page_count + 1,
            outgoing@.len() == page_count + 1,
            forall|p: int| 0 <= p <= page_count ==> (#[trigger] incoming@[p]) == exists|j: int|
                0 <= j < k && (#[trigger] claims@[j]).state == RelationshipState::Validated
                    && claims@[j].target == Some(PageIdentity { page_number: p as u32 }),
            forall|p: int| 0 <= p <= page_count ==> (#[trigger] outgoing@[p])@ == positions_where(from_page(claims@, p), k as int),
            control_kept(*old(control), *control),
            control.phase == old(control).phase,
            control.phase_complete == old(control).phase_complete,
        decreases claims@.len() - k,
    {
        if control.stopped() {
            return None;
        }
        let claim = &claims[k];
        let source = source_page(&claim.source) as usize;
        assert(source <= page_count);
        let ghost before = outgoing@;
        let mut bucket: Vec<usize> = Vec::new();
        std::mem::swap(&mut bucket, &mut outgoing[source]);
        bucket.push(k);
        std::mem::swap(&mut bucket, &mut outgoing[source]);
        assert forall|p: int| 0 <= p <= page_count implies (#[trigger] outgoing@[p])@ == positions_where(from_page(claims@, p), k + 1) by {
            if p != source {
                assert(outgoing@[p] == before[p]);
                assert(!from_page(claims@, p)(k as int));
            } else {
                assert(from_page(claims@, p)(k as int));
            }
        }
        let ghost marks = incoming@;
        if claim.state == RelationshipState::Validated {
            let target = match claim.target {
                Some(p) => p.page_number as usize,
                None => 0,
            };
            incoming.set(target, true);
        }
        assert forall|p: int| 0 <= p <= page_count implies (#[trigger] incoming@[p]) == exists|j: int|
            0 <= j < k + 1 && (#[trigger] claims@[j]).state == RelationshipState::Validated
                && claims@[j].target == Some(PageIdentity { page_number: p as u32 }) by {
            if claims@[k as int].state == RelationshipState::Validated && claims@[k as int].target == Some(PageIdentity { page_number: p as u32 }) {
                assert(0 <= k < k + 1);
            }
            if marks[p] {
                let j = choose|j: int|
                    0 <= j < k && (#[trigger] claims@[j]).state == RelationshipState::Validated
                        && claims@[j].target == Some(PageIdentity { page_number: p as u32 });
                assert(0 <= j < k + 1);
            }
            if exists|j: int|
                0 <= j < k + 1 && (#[trigger] claims@[j]).state == RelationshipState::Validated
                    && claims@[j].target == Some(PageIdentity { page_number: p as u32 }) {
                let j = choose|j: int|
                    0 <= j < k + 1 && (#[trigger] claims@[j]).state == RelationshipState::Validated
                        && claims@[j].target == Some(PageIdentity { page_number: p as u32 });
                if j < k {
                    assert(marks[p]);
                }
            }
        }
        control.advance(TopologyPhase::BtreeTraversal);
        k = k + 1;
    }
    Some((incoming, outgoing))
}

/// A traversal from `origin` along `validated_prefix`, stopped at `claim` for `reason`.
pub fn stopped_btree_traversal(origin: EntityIdentity, validated_prefix: Vec<PageIdentity>, claim: &RelationshipClaim, reason: TraversalStopReason) -> (t: Traversal)
    ensures
        t@ == (TraversalView {
            kind: TraversalKind::Btree,
            origin,
            validated_prefix: validated_prefix@,
            stop: Some(TraversalStop { reason, claim_id: claim.id, intended_target: claim.target }),
        }),
{
    Traversal {
        kind: TraversalKind::Btree,
        origin,
        validated_prefix,
        stop: Some(TraversalStop { reason, claim_id: claim.id, intended_target: claim.target }),
    }
}

/// Records that the aggregate ceiling stopped the traversal at `claim`.
pub fn record_aggregate_btree_stop(
    control: &mut WorkControl,
    traversals: &mut Vec<Traversal>,
    origin: EntityIdentity,
    prefix: Vec<PageIdentity>,
    claim: &RelationshipClaim,
)
    ensures
        *final(control) == (WorkControl { budget_exhausted: true, aggregate_budget_exhausted: true, ..*old(control) }),
        final(traversals)@.len() == old(traversals)@.len() + 1,
        forall|i: int| 0 <= i < old(traversals)@.len() ==> #[trigger] final(traversals)@[i] == old(traversals)@[i],
        final(traversals)@.last()@ == (TraversalView {
            kind: TraversalKind::Btree,
            origin,
            validated_prefix: prefix@,
            stop: Some(TraversalStop { reason: TraversalStopReason::Budget, claim_id: claim.id, intended_target: claim.target }),
        }),
{
    control.mark_aggregate_budget_exhausted();
    traversals.push(stopped_btree_traversal(origin, prefix, claim, TraversalStopReason::Budget));
}


/// A page still to visit, with the validated path that reached it from a root.
pub open spec fn good_pending(entry: (u32, Vec<PageIdentity>), pages: Seq<PageEntity>, claims: Seq<RelationshipClaim>, complete: bool) -> bool {
    &&& entry.1@.len() >= 1
    &&& validated_chain(claims, entry.1@)
    &&& tree_root(pages, claims, complete, entry.1@[0].page_number)
    &&& entry.1@.last().page_number == entry.0
    &&& 1 <= entry.0 <= pages.len()
}

/// The claims leading from each page, by page number.
pub open spec fn outgoing_lists(outgoing: Seq<Vec<usize>>, claims: Seq<RelationshipClaim>, page_count: int) -> bool {
    &&& outgoing.len() == page_count + 1
    &&& forall|p: int| 0 <= p <= page_count ==> (#[trigger] outgoing[p])@ == positions_where(from_page(claims, p), claims.len() as int)
}

/// A path of `len` pages respects the per-path ceiling `max_pages`; a root
/// alone is always walked, however small the ceiling.
pub open spec fn within_path_ceiling(len: int, max_pages: u32) -> bool {
    len <= max_pages || len == 1
}

/// Some traversal starts at page `root`.
pub open spec fn traversed_from(traversals: Seq<Traversal>, root: u32) -> bool {
    exists|i: int| 0 <= i < traversals.len() && (#[trigger] traversals[i])@.origin == (EntityIdentity::Page { page_number: root })
}

proof fn lemma_traversed_grows(a: Seq<Traversal>, b: Seq<Traversal>)
    requires
        a.is_prefix_of(b),
    ensures
        forall|q: u32| traversed_from(a, q) ==> traversed_from(b, q),
{
    assert forall|q: u32| traversed_from(a, q) implies traversed_from(b, q) by {
        let i = choose|i: int| 0 <= i < a.len() && (#[trigger] a[i])@.origin == (EntityIdentity::Page { page_number: q });
        assert(b[i] == a[i]);
    }
}

/// What walking one page's children keeps: the traversals and pending pages
/// added are sound, and each pending page added reserved at least one page.
pub open spec fn walk_kept(
    old_traversals: Seq<Traversal>,
    traversals: Seq<Traversal>,
    old_pending: Seq<(u32, Vec<PageIdentity>)>,
    pending: Seq<(u32, Vec<PageIdentity>)>,
    old_used: u64,
    used: u64,
    max_total: u64,
    pages: Seq<PageEntity>,
    claims: Seq<RelationshipClaim>,
    complete: bool,
    first: PageIdentity,
) -> bool {
    &&& old_traversals.is_prefix_of(traversals)
    &&& forall|i: int| old_pending.len() <= i < pending.len() ==> (#[trigger] pending[i]).1@[0] == first
    &&& forall|i: int| 0 <= i < traversals.len() ==> sound_btree_traversal((#[trigger] traversals[i])@, pages, claims, complete)
    &&& old_pending.is_prefix_of(pending)
    &&& forall|i: int| 0 <= i < pending.len() ==> good_pending(#[trigger] pending[i], pages, claims, complete)
    &&& old_used <= used <= max_total || used == old_used
    &&& pending.len() - old_pending.len() <= used - old_used
}

/// Follows the claims that lead from the last page of `prefix`, last claim
/// first: a claim that did not validate, or that the path ceiling refuses,
/// ends a traversal; a validated claim extends the path and queues its
/// target. Returns false when work must end: a stop, or the aggregate ceiling.
fn walk_btree_children(
    claims: &Vec<RelationshipClaim>,
    outgoing: &Vec<Vec<usize>>,
    max_pages: u32,
    max_total_pages: u64,
    control: &mut WorkControl,
    traversals: &mut Vec<Traversal>,
    traversal_pages: &mut u64,
    origin: EntityIdentity,
    prefix: Vec<PageIdentity>,
    pending: &mut Vec<(u32, Vec<PageIdentity>)>,
    Ghost(pages): Ghost<Seq<PageEntity>>,
    Ghost(complete): Ghost<bool>,
) -> (r: bool)
    requires
        traversable(pages, claims@),
        outgoing_lists(outgoing@, claims@, pages.len() as int),
        good_pending((prefix@.last().page_number, prefix), pages, claims@, complete),
        origin == (EntityIdentity::Page { page_number: prefix@[0].page_number }),
        *old(traversal_pages) <= max_total_pages,
        forall|i: int| 0 <= i < old(traversals)@.len() ==> sound_btree_traversal((#[trigger] old(traversals)@[i])@, pages, claims@, complete),
        forall|i: int| 0 <= i < old(pending)@.len() ==> good_pending(#[trigger] old(pending)@[i], pages, claims@, complete),
        within_path_ceiling(prefix@.len() as int, max_pages),
    ensures
        forall|i: int| old(traversals)@.len() <= i < final(traversals)@.len() ==> (#[trigger] final(traversals)@[i])@.origin == origin
            && within_path_ceiling(final(traversals)@[i]@.validated_prefix.len() as int, max_pages),
        forall|i: int| old(pending)@.len() <= i < final(pending)@.len() ==> within_path_ceiling((#[trigger] final(pending)@[i]).1@.len() as int, max_pages),
        control_kept(*old(control), *final(control)),
        final(control).phase == old(control).phase,
        final(control).phase_complete == old(control).phase_complete,
        *final(traversal_pages) <= max_total_pages,
        !r ==> final(control).is_stopped() || final(control).aggregate_budget_exhausted,
        r ==> (final(traversals)@.len() - old(traversals)@.len()) + (final(pending)@.len() - old(pending)@.len())
            == positions_where(from_page(claims@, prefix@.last().page_number as int), claims@.len() as int).len(),
        walk_kept(
            old(traversals)@,
            final(traversals)@,
            old(pending)@,
            final(pending)@,
            *old(traversal_pages),
            *final(traversal_pages),
            max_total_pages,
            pages,
            claims@,
            complete,
            prefix@[0],
        ),
{
    let page = prefix[prefix.len() - 1].page_number;
    let list = &outgoing[page as usize];
    let count = claims.len();
    proof {
        assert(count == claims@.len());
        lemma_positions_where(from_page(claims@, page as int), claims@.len() as int);
    }
    let ghost start_traversals = traversals@;
    let ghost start_pending = pending@;
    let ghost start_used = *traversal_pages;
    let mut i: usize = list.len();
    while i > 0
        invariant
            traversable(pages, claims@),
            outgoing_lists(outgoing@, claims@, pages.len() as int),
            good_pending((page, prefix), pages, claims@, complete),
            prefix@.last().page_number == page,
            origin == (EntityIdentity::Page { page_number: prefix@[0].page_number }),
            *list == outgoing@[page as int],
            list@ == positions_where(from_page(claims@, page as int), claims@.len() as int),
            forall|k: int| 0 <= k < list@.len() ==> (#[trigger] list@[k]) < claims@.len() && from_page(claims@, page as int)(list@[k] as int),
            i <= list@.len(),
            *traversal_pages <= max_total_pages,
            start_traversals == old(traversals)@,
            start_pending == old(pending)@,
            start_used == *old(traversal_pages),
            walk_kept(start_traversals, traversals@, start_pending, pending@, start_used, *traversal_pages, max_total_pages, pages, claims@, complete, prefix@[0]),
            (traversals@.len() - start_traversals.len()) + (pending@.len() - start_pending.len()) == list@.len() - i,
            within_path_ceiling(prefix@.len() as int, max_pages),
            forall|k: int| start_traversals.len() <= k < traversals@.len() ==> (#[trigger] traversals@[k])@.origin == origin
                && within_path_ceiling(traversals@[k]@.validated_prefix.len() as int, max_pages),
            forall|k: int| start_pending.len() <= k < pending@.len() ==> within_path_ceiling((#[trigger] pending@[k]).1@.len() as int, max_pages),
            control_kept(*old(control), *control),
            control.phase == old(control).phase,
            control.phase_complete == old(control).phase_complete,
        decreases i,
    {
        let index = list[i - 1];
        let claim = &claims[index];
        assert(spec_source_page(claims@[index as int].source) == page);
        if control.stopped() {
            let reason = match control.traversal_reason() {
                Some(reason) => reason,
                None => TraversalStopReason::Cancelled,
            };
            let ghost before = traversals@;
            traversals.push(stopped_btree_traversal(origin, prefix, claim, reason));
            assert(sound_btree_traversal(traversals@.last()@, pages, claims@, complete));
            assert forall|k: int| 0 <= k < traversals@.len() implies sound_btree_traversal((#[trigger] traversals@[k])@, pages, claims@, complete) by {
                if k < before.len() {
                    assert(traversals@[k] == before[k]);
                }
            }
            assert(start_traversals.is_prefix_of(traversals@)) by {
                assert(start_traversals.is_prefix_of(before));
                assert forall|k: int| 0 <= k < start_traversals.len() implies traversals@[k] == start_traversals[k] by {
                    assert(traversals@[k] == before[k]);
                }
            }
            return false;
        }
        if claim.state != RelationshipState::Validated {
            let reason = match claim.stop_reason {
                Some(reason) => reason,
                None => TraversalStopReason::InvalidReference,
            };
            let ghost before = traversals@;
            let ghost used_before = *traversal_pages;
            if !reserve_traversal_pages(traversal_pages, prefix.len() as u64, max_total_pages) {
                record_aggregate_btree_stop(control, traversals, origin, prefix, claim);
                assert(sound_btree_traversal(traversals@.last()@, pages, claims@, complete));
                assert forall|k: int| 0 <= k < traversals@.len() implies sound_btree_traversal((#[trigger] traversals@[k])@, pages, claims@, complete) by {
                    if k < before.len() {
                        assert(traversals@[k] == before[k]);
                    }
                }
                assert(start_traversals.is_prefix_of(traversals@)) by {
                    assert forall|k: int| 0 <= k < start_traversals.len() implies traversals@[k] == start_traversals[k] by {
                        assert(traversals@[k] == before[k]);
                    }
                }
                return false;
            }
            let copy = copy_prefix(&prefix, prefix.len());
            assert(copy@ =~= prefix@);
            traversals.push(stopped_btree_traversal(origin, copy, claim, reason));
            assert(sound_btree_traversal(traversals@.last()@, pages, claims@, complete));
            assert forall|k: int| 0 <= k < traversals@.len() implies sound_btree_traversal((#[trigger] traversals@[k])@, pages, claims@, complete) by {
                if k < before.len() {
                    assert(traversals@[k] == before[k]);
                }
            }
            assert(start_traversals.is_prefix_of(traversals@)) by {
                assert forall|k: int| 0 <= k < start_traversals.len() implies traversals@[k] == start_traversals[k] by {
                    assert(traversals@[k] == before[k]);
                }
            }
            i = i - 1;
            continue;
        }
        if prefix.len() >= max_pages as usize {
            let ghost before = traversals@;
            if !reserve_traversal_pages(traversal_pages, prefix.len() as u64, max_total_pages) {
                record_aggregate_btree_stop(control, traversals, origin, prefix, claim);
                assert(sound_btree_traversal(traversals@.last()@, pages, claims@, complete));
                assert forall|k: int| 0 <= k < traversals@.len() implies sound_btree_traversal((#[trigger] traversals@[k])@, pages, claims@, complete) by {
                    if k < before.len() {
                        assert(traversals@[k] == before[k]);
                    }
                }
                assert(start_traversals.is_prefix_of(traversals@)) by {
                    assert forall|k: int| 0 <= k < start_traversals.len() implies traversals@[k] == start_traversals[k] by {
                        assert(traversals@[k] == before[k]);
                    }
                }
                return false;
            }
            control.mark_budget_exhausted();
            let copy = copy_prefix(&prefix, prefix.len());
            assert(copy@ =~= prefix@);
            traversals.push(stopped_btree_traversal(origin, copy, claim, TraversalStopReason::Budget));
            assert(sound_btree_traversal(traversals@.last()@, pages, claims@, complete));
            assert forall|k: int| 0 <= k < traversals@.len() implies sound_btree_traversal((#[trigger] traversals@[k])@, pages, claims@, complete) by {
                if k < before.len() {
                    assert(traversals@[k] == before[k]);
                }
            }
            assert(start_traversals.is_prefix_of(traversals@)) by {
                assert forall|k: int| 0 <= k < start_traversals.len() implies traversals@[k] == start_traversals[k] by {
                    assert(traversals@[k] == before[k]);
                }
            }
            i = i - 1;
            continue;
        }
        let ghost used_before = *traversal_pages;
        if !reserve_traversal_pages(traversal_pages, (prefix.len() + 1) as u64, max_total_pages) {
            let ghost before = traversals@;
            record_aggregate_btree_stop(control, traversals, origin, prefix, claim);
            assert(sound_btree_traversal(traversals@.last()@, pages, claims@, complete));
            assert forall|k: int| 0 <= k < traversals@.len() implies sound_btree_traversal((#[trigger] traversals@[k])@, pages, claims@, complete) by {
                if k < before.len() {
                    assert(traversals@[k] == before[k]);
                }
            }
            assert(start_traversals.is_prefix_of(traversals@)) by {
                assert forall|k: int| 0 <= k < start_traversals.len() implies traversals@[k] == start_traversals[k] by {
                    assert(traversals@[k] == before[k]);
                }
            }
            return false;
        }
        let target = match claim.target {
            Some(t) => t,
            None => PageIdentity { page_number: 0 },
        };
        let mut next = copy_prefix(&prefix, prefix.len());
        assert(next@ =~= prefix@);
        next.push(target);
        proof {
            assert(linked_by(claims@, page, target.page_number)) by {
                assert(claims@[index as int].state == RelationshipState::Validated);
            }
            assert forall|k: int| 0 <= k < next@.len() - 1 implies linked_by(claims@, (#[trigger] next@[k]).page_number, next@[k + 1].page_number) by {
                if k < prefix@.len() - 1 {
                    assert(next@[k] == prefix@[k] && next@[k + 1] == prefix@[k + 1]);
                } else {
                    assert(next@[k] == prefix@.last());
                }
            }
            assert(next@[0] == prefix@[0]);
        }
        let ghost queue = pending@;
        pending.push((target.page_number, next));
        proof {
            assert forall|k: int| 0 <= k < pending@.len() implies good_pending(#[trigger] pending@[k], pages, claims@, complete) by {
                if k < queue.len() {
                    assert(pending@[k] == queue[k]);
                }
            }
            assert(start_pending.is_prefix_of(pending@)) by {
                assert forall|k: int| 0 <= k < start_pending.len() implies pending@[k] == start_pending[k] by {
                    assert(pending@[k] == queue[k]);
                }
            }
            assert forall|k: int| start_pending.len() <= k < pending@.len() implies (#[trigger] pending@[k]).1@[0] == prefix@[0] by {
                if k < queue.len() {
                    assert(pending@[k] == queue[k]);
                }
            }
        }
        i = i - 1;
    }
    true
}


/// Walks every tree from its root: each B-tree page that no validated claim
/// names as a child (only page one when the inventory is incomplete), down
/// validated child links, depth first. Returns the traversals and the pages
/// they reserved against the aggregate ceiling.
pub fn btree_traversals(
    pages: &Vec<PageEntity>,
    claims: &Vec<RelationshipClaim>,
    inventory_complete: bool,
    max_pages: u32,
    max_total_pages: u64,
    control: &mut WorkControl,
) -> (r: (Vec<Traversal>, u64))
    requires
        traversable(pages@, claims@),
    ensures
        control_kept(*old(control), *final(control)),
        r.1 <= max_total_pages,
        forall|i: int| 0 <= i < r.0@.len() ==> sound_btree_traversal((#[trigger] r.0@[i])@, pages@, claims@, inventory_complete),
        !final(control).is_stopped() ==> final(control).phase == TopologyPhase::BtreeTraversal.spec_code()
            && (final(control).phase_complete || final(control).aggregate_budget_exhausted),
        forall|i: int| 0 <= i < r.0@.len() ==> within_path_ceiling((#[trigger] r.0@[i])@.validated_prefix.len() as int, max_pages),
        !final(control).is_stopped() && !final(control).aggregate_budget_exhausted ==> forall|q: u32|
            #[trigger] tree_root(pages@, claims@, inventory_complete, q) ==> traversed_from(r.0@, q),
{
    control.begin_phase(TopologyPhase::BtreeTraversal, None);
    let ghost begun = *control;
    let mut traversal_pages: u64 = 0;
    let mut traversals: Vec<Traversal> = Vec::new();
    let count = claims.len();
    let (incoming, outgoing) = match btree_adjacency(pages.len(), claims, control) {
        Some(adjacency) => adjacency,
        None => return (traversals, traversal_pages),
    };
    let mut p: usize = 0;
    while p < pages.len()
        invariant
            traversable(pages@, claims@),
            count == claims@.len(),
            outgoing_lists(outgoing@, claims@, pages@.len() as int),
            incoming@.len() == pages@.len() + 1,
            forall|q: int| 0 <= q <= pages@.len() ==> (#[trigger] incoming@[q]) == has_parent(claims@, q as u32),
            p <= pages@.len(),
            traversal_pages <= max_total_pages,
            forall|i: int| 0 <= i < traversals@.len() ==> sound_btree_traversal((#[trigger] traversals@[i])@, pages@, claims@, inventory_complete),
            forall|i: int| 0 <= i < traversals@.len() ==> within_path_ceiling((#[trigger] traversals@[i])@.validated_prefix.len() as int, max_pages),
            forall|q: u32| 1 <= q <= p && #[trigger] tree_root(pages@, claims@, inventory_complete, q) ==> traversed_from(traversals@, q),
            control_kept(*old(control), *control),
            !control.is_stopped() ==> control.phase == begun.phase && control.phase_complete == begun.phase_complete && !begun.is_stopped(),
            !begun.is_stopped() ==> begun.phase == TopologyPhase::BtreeTraversal.spec_code(),
        decreases pages@.len() - p,
    {
        let root = pages[p].number;
        assert(root == p + 1);
        if pages[p].detail.kind.is_none() || incoming[root as usize] || !(inventory_complete || root == 1) {
            p = p + 1;
            continue;
        }
        assert(tree_root(pages@, claims@, inventory_complete, root));
        if control.stopped() {
            return (traversals, traversal_pages);
        }
        if !reserve_traversal_pages(&mut traversal_pages, 1, max_total_pages) {
            control.mark_aggregate_budget_exhausted();
            return (traversals, traversal_pages);
        }
        let origin = EntityIdentity::Page { page_number: root };
        let mut start: Vec<PageIdentity> = Vec::new();
        start.push(PageIdentity { page_number: root });
        let mut pending: Vec<(u32, Vec<PageIdentity>)> = Vec::new();
        pending.push((root, start));
        assert(good_pending(pending@[0], pages@, claims@, inventory_complete));
        while pending.len() > 0
            invariant
                traversable(pages@, claims@),
                count == claims@.len(),
                outgoing_lists(outgoing@, claims@, pages@.len() as int),
                incoming@.len() == pages@.len() + 1,
                forall|q: int| 0 <= q <= pages@.len() ==> (#[trigger] incoming@[q]) == has_parent(claims@, q as u32),
                p < pages@.len(),
                root == p + 1,
                origin == (EntityIdentity::Page { page_number: root }),
                traversal_pages <= max_total_pages,
                forall|i: int| 0 <= i < traversals@.len() ==> sound_btree_traversal((#[trigger] traversals@[i])@, pages@, claims@, inventory_complete),
                forall|i: int| 0 <= i < pending@.len() ==> good_pending(#[trigger] pending@[i], pages@, claims@, inventory_complete)
                    && pending@[i].1@[0].page_number == root,
                forall|i: int| 0 <= i < traversals@.len() ==> within_path_ceiling((#[trigger] traversals@[i])@.validated_prefix.len() as int, max_pages),
                forall|i: int| 0 <= i < pending@.len() ==> within_path_ceiling((#[trigger] pending@[i]).1@.len() as int, max_pages),
                forall|q: u32| 1 <= q < root && #[trigger] tree_root(pages@, claims@, inventory_complete, q) ==> traversed_from(traversals@, q),
                pending@.len() > 0 || traversed_from(traversals@, root),
                control_kept(*old(control), *control),
                !control.is_stopped() ==> control.phase == begun.phase && control.phase_complete == begun.phase_complete && !begun.is_stopped(),
                !begun.is_stopped() ==> begun.phase == TopologyPhase::BtreeTraversal.spec_code(),
            decreases max_total_pages - traversal_pages, pending@.len(),
        {
            let ghost queue = pending@;
            let (page, prefix) = match pending.pop() {
                Some(entry) => entry,
                None => {
                    assert(false);
                    return (traversals, traversal_pages);
                },
            };
            assert(good_pending(queue.last(), pages@, claims@, inventory_complete));
            assert((page, prefix) == queue.last());
            proof {
                assert forall|i: int| 0 <= i < pending@.len() implies good_pending(#[trigger] pending@[i], pages@, claims@, inventory_complete)
                    && pending@[i].1@[0].page_number == root by {
                    assert(pending@[i] == queue[i]);
                }
                assert forall|i: int| 0 <= i < pending@.len() implies within_path_ceiling((#[trigger] pending@[i]).1@.len() as int, max_pages) by {
                    assert(pending@[i] == queue[i]);
                }
                assert(within_path_ceiling(queue[queue.len() - 1].1@.len() as int, max_pages));
                assert(within_path_ceiling(prefix@.len() as int, max_pages));
                assert(prefix@[0].page_number == root);
                lemma_positions_where(from_page(claims@, page as int), claims@.len() as int);
            }
            let list = &outgoing[page as usize];
            if control.stopped() {
                if list.len() > 0 {
                    let index = list[0];
                    let claim = &claims[index];
                    let reason = match control.traversal_reason() {
                        Some(reason) => reason,
                        None => TraversalStopReason::Cancelled,
                    };
                    let ghost before = traversals@;
                    traversals.push(stopped_btree_traversal(origin, prefix, claim, reason));
                    assert(sound_btree_traversal(traversals@.last()@, pages@, claims@, inventory_complete));
                    assert forall|k: int| 0 <= k < traversals@.len() implies sound_btree_traversal((#[trigger] traversals@[k])@, pages@, claims@, inventory_complete)
                        && within_path_ceiling(traversals@[k]@.validated_prefix.len() as int, max_pages) by {
                        if k < before.len() {
                            assert(traversals@[k] == before[k]);
                        }
                    }
                }
                return (traversals, traversal_pages);
            }
            control.advance(TopologyPhase::BtreeTraversal);
            if list.len() == 0 {
                let ghost before = traversals@;
                traversals.push(Traversal { kind: TraversalKind::Btree, origin, validated_prefix: prefix, stop: None });
                proof {
                    lemma_traversed_grows(before, traversals@);
                    assert(traversals@[before.len() as int]@.validated_prefix[0].page_number == root);
                    assert(traversed_from(traversals@, root));
                    assert forall|k: int| 0 <= k < traversals@.len() implies within_path_ceiling((#[trigger] traversals@[k])@.validated_prefix.len() as int, max_pages) by {
                        if k < before.len() {
                            assert(traversals@[k] == before[k]);
                        }
                    }
                    assert forall|j: int| 0 <= j < claims@.len() implies spec_source_page((#[trigger] claims@[j]).source) != page by {
                        if spec_source_page(claims@[j].source) == page {
                            assert(from_page(claims@, page as int)(j));
                            assert(listed(list@, 0, list@.len() as int, j));
                        }
                    }
                    assert(sound_btree_traversal(traversals@.last()@, pages@, claims@, inventory_complete));
                    assert forall|k: int| 0 <= k < traversals@.len() implies sound_btree_traversal((#[trigger] traversals@[k])@, pages@, claims@, inventory_complete) by {
                        if k < before.len() {
                            assert(traversals@[k] == before[k]);
                        }
                    }
                }
                continue;
            }
            let ghost queued = pending@;
            let ghost walked_before = traversals@;
            let ghost used = traversal_pages;
            let more = walk_btree_children(
                claims,
                &outgoing,
                max_pages,
                max_total_pages,
                control,
                &mut traversals,
                &mut traversal_pages,
                origin,
                prefix,
                &mut pending,
                Ghost(pages@),
                Ghost(inventory_complete),
            );
            proof {
                assert forall|k: int| 0 <= k < traversals@.len() implies within_path_ceiling((#[trigger] traversals@[k])@.validated_prefix.len() as int, max_pages) by {
                    if k < walked_before.len() {
                        assert(traversals@[k] == walked_before[k]);
                    }
                }
            }
            if !more {
                return (traversals, traversal_pages);
            }
            proof {
                assert forall|i: int| 0 <= i < pending@.len() implies good_pending(#[trigger] pending@[i], pages@, claims@, inventory_complete)
                    && pending@[i].1@[0].page_number == root by {
                    if i < queued.len() {
                        assert(pending@[i] == queued[i]);
                    } else {
                        assert(pending@[i].1@[0] == prefix@[0]);
                    }
                }
                assert forall|i: int| 0 <= i < pending@.len() implies within_path_ceiling((#[trigger] pending@[i]).1@.len() as int, max_pages) by {
                    if i < queued.len() {
                        assert(pending@[i] == queued[i]);
                    }
                }
                assert forall|k: int| 0 <= k < traversals@.len() implies within_path_ceiling((#[trigger] traversals@[k])@.validated_prefix.len() as int, max_pages) by {
                    if k < walked_before.len() {
                        assert(traversals@[k] == walked_before[k]);
                    }
                }
                lemma_traversed_grows(walked_before, traversals@);
                if traversals@.len() > walked_before.len() {
                    let k = walked_before.len() as int;
                    assert(traversals@[k]@.origin == origin);
                    assert(sound_btree_traversal(traversals@[k]@, pages@, claims@, inventory_complete));
                    assert(traversed_from(traversals@, root));
                } else {
                    assert(list@ == positions_where(from_page(claims@, page as int), claims@.len() as int));
                    assert(pending@.len() > queued.len());
                }
            }
        }
        p = p + 1;
    }
    control.finish_phase(TopologyPhase::BtreeTraversal);
    (traversals, traversal_pages)
}

} // verus!
