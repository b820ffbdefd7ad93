//! Reconciling the freelist with storage: a page that the freelist claims
//! and that a B-tree or overflow claim also names, as a page of the wrong
//! type, is a conflict that excludes both sides.
use vstd::prelude::*;

use crate::btree::{AllocationRole, LocalCoverage};
use crate::freelist::{Allocation, FreelistCoverageReason};
use crate::inventory::PageEntity;
use crate::links::listed;
use crate::topology::control_kept;
use crate::topology::{
    ClaimId, Containment, DiagnosticCode, DiagnosticSeverity, DiagnosticView, PageIdentity, PhysicalEvidence, Relationship,
    RelationshipClaim, RelationshipState, StructuralDiagnostic, TopologyPhase, Traversal, TraversalStop, TraversalStopReason,
    WorkControl,
};
use crate::tree_links::{lemma_positions_where, positions_where};
use crate::roles::copy_prefix;
use crate::topology::TraversalView;

verus! {

/// Page `t` was projected by the freelist.
pub open spec fn freelist_page(pages: Seq<PageEntity>, t: u32) -> bool {
    1 <= t <= pages.len() && pages[t - 1].detail.allocation_role is Some
}

/// A storage claim that names a freelist page, which it found of the wrong type.
pub open spec fn storage_conflict(claim: RelationshipClaim, pages: Seq<PageEntity>) -> bool {
    &&& claim.target matches Some(t) && freelist_page(pages, t.page_number)
    &&& claim.stop_reason == Some(TraversalStopReason::TypeMismatch)
}

/// The positions of the allocation claims that name page `t`.
pub open spec fn naming(claims: Seq<RelationshipClaim>, t: u32) -> spec_fn(int) -> bool {
    |j: int| claims[j].target == Some(PageIdentity { page_number: t })
}

pub open spec fn incoming_of(claims: Seq<RelationshipClaim>, t: u32) -> Seq<usize> {
    positions_where(naming(claims, t), claims.len() as int)
}

/// One of the first `n` storage claims conflicts over page `t`.
pub open spec fn conflicted_page(storage: Seq<RelationshipClaim>, pages: Seq<PageEntity>, t: u32, n: int) -> bool {
    exists|i: int| 0 <= i < n && storage_conflict(#[trigger] storage[i], pages) && storage[i].target == Some(PageIdentity { page_number: t })
}

/// `claim` excluded for a conflict.
pub open spec fn excluded(claim: RelationshipClaim) -> RelationshipClaim {
    RelationshipClaim { state: RelationshipState::Conflicting, stop_reason: Some(TraversalStopReason::ConflictingClaim), ..claim }
}

/// The report of a storage claim that conflicts with the freelist claims of its target.
pub open spec fn conflict_report(claim: RelationshipClaim, allocation: Seq<RelationshipClaim>) -> DiagnosticView {
    let incoming = incoming_of(allocation, claim.target.unwrap().page_number);
    DiagnosticView {
        code: DiagnosticCode::FreelistStorageRoleConflict,
        severity: DiagnosticSeverity::Error,
        evidence: seq![claim.evidence] + incoming.map_values(|j: usize| allocation[j as int].evidence),
        affected_relationships: seq![claim.id] + incoming.map_values(|j: usize| allocation[j as int].id),
        containment: Containment::RelationshipExcluded,
    }
}

/// The reports of the conflicts among the first `n` storage claims, in order.
pub open spec fn conflict_reports(storage: Seq<RelationshipClaim>, pages: Seq<PageEntity>, allocation: Seq<RelationshipClaim>, n: int) -> Seq<DiagnosticView>
    decreases n,
{
    if n <= 0 {
        seq![]
    } else {
        let rest = conflict_reports(storage, pages, allocation, n - 1);
        if storage_conflict(storage[n - 1], pages) {
            rest.push(conflict_report(storage[n - 1], allocation))
        } else {
            rest
        }
    }
}

/// `page` marked as a conflicting freelist page.
pub open spec fn conflicting_page(page: PageEntity) -> bool {
    &&& page.detail.allocation_role == Some(AllocationRole::Conflicting)
    &&& page.detail.coverage == LocalCoverage::Partial
}

/// `b` is page `a` with only its allocation role and coverage changed.
pub open spec fn page_marked(a: PageEntity, b: PageEntity) -> bool {
    &&& b.number == a.number
    &&& b.classification == a.classification
    &&& b.detail.kind == a.detail.kind
    &&& b.detail.header == a.detail.header
    &&& b.detail.regions@ == a.detail.regions@
    &&& b.detail.cells@ == a.detail.cells@
    &&& b.detail.freeblocks@ == a.detail.freeblocks@
    &&& b.detail.diagnostics@ == a.detail.diagnostics@
    &&& conflicting_page(b)
}

/// The positions of the allocation claims that name page `t`, in order.
fn incoming_list(claims: &Vec<RelationshipClaim>, t: u32) -> (r: Vec<usize>)
    ensures
        r@ == incoming_of(claims@, t),
{
    let mut r: Vec<usize> = Vec::new();
    let mut j: usize = 0;
    while j < claims.len()
        invariant
            j <= claims@.len(),
            r@ == positions_where(naming(claims@, t), j as int),
        decreases claims@.len() - j,
    {
        if claims[j].target == Some(PageIdentity { page_number: t }) {
            assert(naming(claims@, t)(j as int));
            r.push(j);
        } else {
            assert(!naming(claims@, t)(j as int));
        }
        j = j + 1;
    }
    r
}


/// The identities excluded by the conflicts among the first `n` storage
/// claims: each conflicting storage claim, then the freelist claims of its target.
pub open spec fn conflict_ids(storage: Seq<RelationshipClaim>, pages: Seq<PageEntity>, allocation: Seq<RelationshipClaim>, n: int) -> Seq<ClaimId>
    decreases n,
{
    if n <= 0 {
        seq![]
    } else {
        let rest = conflict_ids(storage, pages, allocation, n - 1);
        let claim = storage[n - 1];
        if storage_conflict(claim, pages) {
            rest + seq![claim.id] + incoming_of(allocation, claim.target.unwrap().page_number).map_values(|j: usize| allocation[j as int].id)
        } else {
            rest
        }
    }
}

/// Some of the first `n` storage claims conflicts.
pub open spec fn any_conflict(storage: Seq<RelationshipClaim>, pages: Seq<PageEntity>, n: int) -> bool {
    exists|i: int| 0 <= i < n && storage_conflict(#[trigger] storage[i], pages)
}

/// The state after the conflicts among the first `n` storage claims are excluded.
pub open spec fn excluded_through(
    os: Seq<RelationshipClaim>,
    op: Seq<PageEntity>,
    oa: Seq<RelationshipClaim>,
    storage: Seq<RelationshipClaim>,
    pages: Seq<PageEntity>,
    allocation: Seq<RelationshipClaim>,
    n: int,
) -> bool {
    &&& storage.len() == os.len()
    &&& pages.len() == op.len()
    &&& allocation.len() == oa.len()
    &&& forall|k: int| 0 <= k < os.len() ==> #[trigger] storage[k] == if k < n && storage_conflict(os[k], op) {
        excluded(os[k])
    } else {
        os[k]
    }
    &&& forall|j: int| 0 <= j < oa.len() ==> #[trigger] allocation[j] == if oa[j].target matches Some(p) && conflicted_page(os, op, p.page_number, n) {
        excluded(oa[j])
    } else {
        oa[j]
    }
    &&& forall|k: int| 0 <= k < op.len() ==> if conflicted_page(os, op, (k + 1) as u32, n) {
        page_marked(op[k], #[trigger] pages[k])
    } else {
        pages[k] == op[k]
    }
}

proof fn lemma_positions_ext(p: spec_fn(int) -> bool, q: spec_fn(int) -> bool, n: int)
    requires
        forall|j: int| 0 <= j < n ==> #[trigger] p(j) == q(j),
    ensures
        positions_where(p, n) == positions_where(q, n),
    decreases n,
{
    if n > 0 {
        lemma_positions_ext(p, q, n - 1);
    }
}

/// A storage claim that does not conflict changes nothing.
proof fn lemma_no_conflict_step(
    os: Seq<RelationshipClaim>,
    op: Seq<PageEntity>,
    oa: Seq<RelationshipClaim>,
    storage: Seq<RelationshipClaim>,
    pages: Seq<PageEntity>,
    allocation: Seq<RelationshipClaim>,
    i: int,
)
    requires
        0 <= i < os.len(),
        !storage_conflict(os[i], op),
        excluded_through(os, op, oa, storage, pages, allocation, i),
    ensures
        excluded_through(os, op, oa, storage, pages, allocation, i + 1),
        conflict_ids(os, op, oa, i + 1) == conflict_ids(os, op, oa, i),
        conflict_reports(os, op, oa, i + 1) == conflict_reports(os, op, oa, i),
        any_conflict(os, op, i + 1) == any_conflict(os, op, i),
{
    assert forall|t: u32| conflicted_page(os, op, t, i + 1) == conflicted_page(os, op, t, i) by {
        if conflicted_page(os, op, t, i + 1) {
            let w = choose|w: int| 0 <= w < i + 1 && storage_conflict(#[trigger] os[w], op) && os[w].target == Some(PageIdentity { page_number: t });
            assert(w != i);
        }
    }
    if any_conflict(os, op, i + 1) {
        let w = choose|w: int| 0 <= w < i + 1 && storage_conflict(#[trigger] os[w], op);
        assert(w != i);
    }
}

/// The state after the conflicts among the first `n` storage claims are
/// excluded, with the identities excluded, the reports added and the
/// freelist coverage.
pub open spec fn excluded_stage(
    os: Seq<RelationshipClaim>,
    op: Seq<PageEntity>,
    oa: Allocation,
    storage: Seq<RelationshipClaim>,
    pages: Seq<PageEntity>,
    allocation: Allocation,
    ids: Seq<ClaimId>,
    n: int,
) -> bool {
    let reports = conflict_reports(os, op, oa.claims@, n);
    &&& 0 <= n <= os.len()
    &&& excluded_through(os, op, oa.claims@, storage, pages, allocation.claims@, n)
    &&& ids == conflict_ids(os, op, oa.claims@, n)
    &&& allocation.diagnostics@.len() == oa.diagnostics@.len() + reports.len()
    &&& forall|k: int| 0 <= k < oa.diagnostics@.len() ==> #[trigger] allocation.diagnostics@[k] == oa.diagnostics@[k]
    &&& forall|k: int| 0 <= k < reports.len() ==> (#[trigger] allocation.diagnostics@[oa.diagnostics@.len() + k])@ == reports[k]
    &&& allocation.freelist.coverage == if oa.freelist.coverage.reason == FreelistCoverageReason::Complete && any_conflict(os, op, n) {
        crate::freelist::FreelistCoverage { reason: FreelistCoverageReason::InvalidStructure, remainder: None, ..oa.freelist.coverage }
    } else {
        oa.freelist.coverage
    }
}

/// Excludes each storage claim that names a freelist page of the wrong type,
/// with the freelist claims of that page, and marks the page conflicting.
/// Returns the identities excluded and whether every storage claim was seen.
fn exclude_conflicts(
    allocation: &mut Allocation,
    pages: &mut Vec<PageEntity>,
    storage: &mut Vec<RelationshipClaim>,
    control: &mut WorkControl,
) -> (r: (Vec<ClaimId>, usize))
    requires
        old(pages)@.len() < u32::MAX,
    ensures
        control_kept(*old(control), *final(control)),
        final(control).phase == old(control).phase,
        final(control).phase_complete == old(control).phase_complete,
        r.1 < old(storage)@.len() ==> final(control).is_stopped(),
        final(allocation).relationships@ == old(allocation).relationships@,
        final(allocation).traversals@ == old(allocation).traversals@,
        final(allocation).freelist.first_trunk == old(allocation).freelist.first_trunk,
        final(allocation).freelist.declared_count == old(allocation).freelist.declared_count,
        final(allocation).freelist.trunks@ == old(allocation).freelist.trunks@,
        excluded_stage(
            old(storage)@,
            old(pages)@,
            *old(allocation),
            final(storage)@,
            final(pages)@,
            *final(allocation),
            r.0@,
            r.1 as int,
        ),
{
    let ghost os = storage@;
    let ghost op = pages@;
    let ghost oa = allocation.claims@;
    let ghost od = allocation.diagnostics@;
    let ghost oc = allocation.freelist.coverage;
    let mut conflicts: Vec<ClaimId> = Vec::new();
    let mut i: usize = 0;
    while i < storage.len()
        invariant
            os == old(storage)@,
            op == old(pages)@,
            oa == old(allocation).claims@,
            od == old(allocation).diagnostics@,
            oc == old(allocation).freelist.coverage,
            op.len() < u32::MAX,
            i <= os.len(),
            excluded_through(os, op, oa, storage@, pages@, allocation.claims@, i as int),
            conflicts@ == conflict_ids(os, op, oa, i as int),
            allocation.relationships@ == old(allocation).relationships@,
            allocation.traversals@ == old(allocation).traversals@,
            allocation.freelist.first_trunk == old(allocation).freelist.first_trunk,
            allocation.freelist.declared_count == old(allocation).freelist.declared_count,
            allocation.freelist.trunks@ == old(allocation).freelist.trunks@,
            allocation.diagnostics@.len() == od.len() + conflict_reports(os, op, oa, i as int).len(),
            forall|k: int| 0 <= k < od.len() ==> #[trigger] allocation.diagnostics@[k] == od[k],
            forall|k: int| 0 <= k < conflict_reports(os, op, oa, i as int).len()
                ==> (#[trigger] allocation.diagnostics@[od.len() + k])@ == conflict_reports(os, op, oa, i as int)[k],
            allocation.freelist.coverage == if oc.reason == FreelistCoverageReason::Complete && any_conflict(os, op, i as int) {
                crate::freelist::FreelistCoverage { reason: FreelistCoverageReason::InvalidStructure, remainder: None, ..oc }
            } else {
                oc
            },
            control_kept(*old(control), *control),
            control.phase == old(control).phase,
            control.phase_complete == old(control).phase_complete,
        decreases os.len() - i,
    {
        if control.stopped() {
            return (conflicts, i);
        }
        control.advance(TopologyPhase::AllocationReconciliation);
        let claim = storage[i];
        assert(claim == os[i as int]);
        let t = match claim.target {
            Some(t) => t.page_number,
            None => {
                proof { lemma_no_conflict_step(os, op, oa, storage@, pages@, allocation.claims@, i as int); }
                i = i + 1;
                continue;
            },
        };
        let projected = 1 <= t && (t as usize) <= pages.len() && pages[(t - 1) as usize].detail.allocation_role.is_some();
        proof {
            if 1 <= t <= op.len() {
                assert(pages@[t - 1].detail.allocation_role is Some <==> op[t - 1].detail.allocation_role is Some) by {
                    if conflicted_page(os, op, t, i as int) {
                        assert(page_marked(op[t - 1], pages@[t - 1]));
                    }
                }
            }
        }
        if !projected || claim.stop_reason != Some(TraversalStopReason::TypeMismatch) {
            proof { lemma_no_conflict_step(os, op, oa, storage@, pages@, allocation.claims@, i as int); }
            i = i + 1;
            continue;
        }
        assert(storage_conflict(os[i as int], op));
        let ghost before_storage = storage@;
        let ghost before_pages = pages@;
        let ghost before_alloc = allocation.claims@;
        let ghost before_diagnostics = allocation.diagnostics@;
        storage.set(i, RelationshipClaim { state: RelationshipState::Conflicting, stop_reason: Some(TraversalStopReason::ConflictingClaim), ..claim });
        let k = (t - 1) as usize;
        pages[k].detail.allocation_role = Some(AllocationRole::Conflicting);
        pages[k].detail.coverage = LocalCoverage::Partial;
        let incoming = incoming_list(&allocation.claims, t);
        let count = allocation.claims.len();
        let ghost cov_before = allocation.freelist.coverage;
        proof {
            assert(count == oa.len());
            lemma_positions_ext(naming(allocation.claims@, t), naming(oa, t), oa.len() as int);
            assert(incoming@ == incoming_of(oa, t));
            lemma_positions_where(naming(oa, t), oa.len() as int);
        }
        let mut evidence: Vec<PhysicalEvidence> = Vec::new();
        let mut affected: Vec<ClaimId> = Vec::new();
        evidence.push(claim.evidence);
        affected.push(claim.id);
        conflicts.push(claim.id);
        let ghost ids_before = conflicts@;
        let mut m: usize = 0;
        while m < incoming.len()
            invariant
                oa == old(allocation).claims@,
                incoming@ == incoming_of(oa, t),
                forall|x: int| 0 <= x < incoming@.len() ==> (#[trigger] incoming@[x]) < oa.len() && naming(oa, t)(incoming@[x] as int),
                m <= incoming@.len(),
                allocation.claims@.len() == oa.len(),
                forall|j: int| 0 <= j < oa.len() ==> #[trigger] allocation.claims@[j] == if listed(incoming@, 0, m as int, j) {
                    excluded(before_alloc[j])
                } else {
                    before_alloc[j]
                },
                forall|j: int| 0 <= j < oa.len() ==> (#[trigger] before_alloc[j]).evidence == oa[j].evidence && before_alloc[j].id == oa[j].id,
                evidence@ == seq![claim.evidence] + incoming@.subrange(0, m as int).map_values(|j: usize| oa[j as int].evidence),
                affected@ == seq![claim.id] + incoming@.subrange(0, m as int).map_values(|j: usize| oa[j as int].id),
                conflicts@ == ids_before + incoming@.subrange(0, m as int).map_values(|j: usize| oa[j as int].id),
                allocation.relationships@ == old(allocation).relationships@,
                allocation.traversals@ == old(allocation).traversals@,
                allocation.freelist.first_trunk == old(allocation).freelist.first_trunk,
                allocation.freelist.declared_count == old(allocation).freelist.declared_count,
                allocation.freelist.trunks@ == old(allocation).freelist.trunks@,
                allocation.diagnostics@ == before_diagnostics,
                allocation.freelist.coverage == cov_before,
            decreases incoming@.len() - m,
        {
            let j = incoming[m];
            let ghost prior = allocation.claims@;
            let mut free = allocation.claims[j];
            free.state = RelationshipState::Conflicting;
            free.stop_reason = Some(TraversalStopReason::ConflictingClaim);
            evidence.push(free.evidence);
            affected.push(free.id);
            conflicts.push(free.id);
            allocation.claims.set(j, free);
            proof {
                assert forall|x: int| 0 <= x < oa.len() implies #[trigger] allocation.claims@[x] == if listed(incoming@, 0, m + 1, x) {
                    excluded(before_alloc[x])
                } else {
                    before_alloc[x]
                } by {
                    if x == j as int {
                        assert(incoming@[m as int] as int == x);
                        if listed(incoming@, 0, m as int, x) {
                            assert(prior[x] == excluded(before_alloc[x]));
                        }
                    } else {
                        assert(allocation.claims@[x] == prior[x]);
                        if listed(incoming@, 0, m + 1, x) {
                            let w = choose|w: int| 0 <= w < m + 1 && #[trigger] incoming@[w] as int == x;
                            assert(w < m);
                        }
                    }
                }
                assert(incoming@.subrange(0, m + 1).map_values(|j: usize| oa[j as int].evidence)
                    =~= incoming@.subrange(0, m as int).map_values(|j: usize| oa[j as int].evidence).push(oa[j as int].evidence));
                assert(incoming@.subrange(0, m + 1).map_values(|j: usize| oa[j as int].id)
                    =~= incoming@.subrange(0, m as int).map_values(|j: usize| oa[j as int].id).push(oa[j as int].id));
            }
            m = m + 1;
        }
        assert(incoming@.subrange(0, incoming@.len() as int) =~= incoming@);
        let diagnostic = StructuralDiagnostic {
            code: DiagnosticCode::FreelistStorageRoleConflict,
            severity: DiagnosticSeverity::Error,
            evidence,
            affected_relationships: affected,
            containment: Containment::RelationshipExcluded,
        };
        allocation.diagnostics.push(diagnostic);
        if allocation.freelist.coverage.reason == FreelistCoverageReason::Complete {
            allocation.freelist.coverage.reason = FreelistCoverageReason::InvalidStructure;
            allocation.freelist.coverage.remainder = None;
        }
        proof {
            assert(claim.target == Some(PageIdentity { page_number: t }));
            assert forall|u: u32| conflicted_page(os, op, u, i + 1) == (conflicted_page(os, op, u, i as int) || u == t) by {
                if conflicted_page(os, op, u, i + 1) && !conflicted_page(os, op, u, i as int) {
                    let w = choose|w: int| 0 <= w < i + 1 && storage_conflict(#[trigger] os[w], op) && os[w].target == Some(PageIdentity { page_number: u });
                    assert(w == i);
                }
                if u == t {
                    assert(storage_conflict(os[i as int], op) && os[i as int].target == Some(PageIdentity { page_number: u }));
                }
                if conflicted_page(os, op, u, i as int) {
                    let w = choose|w: int| 0 <= w < i && storage_conflict(#[trigger] os[w], op) && os[w].target == Some(PageIdentity { page_number: u });
                    assert(0 <= w < i + 1);
                }
            }
            assert(any_conflict(os, op, i + 1));
            assert forall|x: int| 0 <= x < oa.len() implies #[trigger] allocation.claims@[x] == if oa[x].target matches Some(p) && conflicted_page(os, op, p.page_number, i + 1) {
                excluded(oa[x])
            } else {
                oa[x]
            } by {
                if oa[x].target == Some(PageIdentity { page_number: t }) {
                    assert(naming(oa, t)(x));
                    assert(listed(incoming@, 0, incoming@.len() as int, x));
                } else {
                    if listed(incoming@, 0, incoming@.len() as int, x) {
                        let w = choose|w: int| 0 <= w < incoming@.len() && #[trigger] incoming@[w] as int == x;
                        assert(naming(oa, t)(incoming@[w] as int));
                    }
                }
            }
            assert forall|q: int| 0 <= q < op.len() implies if conflicted_page(os, op, (q + 1) as u32, i + 1) {
                page_marked(op[q], #[trigger] pages@[q])
            } else {
                pages@[q] == op[q]
            } by {
                if q != k as int {
                    assert(pages@[q] == before_pages[q]);
                    if (q + 1) as u32 == t {
                        assert(q + 1 == t);
                    }
                } else {
                    if conflicted_page(os, op, (q + 1) as u32, i as int) {
                        assert(page_marked(op[q], before_pages[q]));
                    } else {
                        assert(before_pages[q] == op[q]);
                    }
                }
            }
            assert forall|q: int| 0 <= q < os.len() implies #[trigger] storage@[q] == if q < i + 1 && storage_conflict(os[q], op) {
                excluded(os[q])
            } else {
                os[q]
            } by {
                if q != i as int {
                    assert(storage@[q] == before_storage[q]);
                }
            }
            assert(conflict_ids(os, op, oa, i + 1) == conflict_ids(os, op, oa, i as int) + seq![claim.id]
                + incoming_of(oa, t).map_values(|j: usize| oa[j as int].id));
            assert(conflicts@ =~= conflict_ids(os, op, oa, i + 1));
            assert(allocation.diagnostics@.last()@ == conflict_report(os[i as int], oa));
            assert forall|x: int| 0 <= x < conflict_reports(os, op, oa, i + 1).len()
                implies (#[trigger] allocation.diagnostics@[od.len() + x])@ == conflict_reports(os, op, oa, i + 1)[x] by {
                if x < conflict_reports(os, op, oa, i as int).len() {
                    assert(allocation.diagnostics@[od.len() + x] == before_diagnostics[od.len() + x]);
                }
            }
        }
        i = i + 1;
    }
    (conflicts, i)
}


/// The relationships whose claims are not among `ids`, in order.
pub open spec fn unexcluded(rels: Seq<Relationship>, ids: Seq<ClaimId>) -> Seq<Relationship>
    decreases rels.len(),
{
    if rels.len() == 0 {
        seq![]
    } else {
        let rest = unexcluded(rels.drop_last(), ids);
        if ids.contains(rels.last().claim_id) {
            rest
        } else {
            rest.push(rels.last())
        }
    }
}

fn contains_id(ids: &Vec<ClaimId>, id: ClaimId) -> (r: bool)
    ensures
        r == ids@.contains(id),
{
    let mut k: usize = 0;
    while k < ids.len()
        invariant
            k <= ids@.len(),
            forall|j: int| 0 <= j < k ==> ids@[j] != id,
        decreases ids@.len() - k,
    {
        if ids[k] == id {
            assert(ids@[k as int] == id);
            return true;
        }
        k = k + 1;
    }
    false
}

fn retain_unexcluded(rels: &Vec<Relationship>, ids: &Vec<ClaimId>) -> (r: Vec<Relationship>)
    ensures
        r@ == unexcluded(rels@, ids@),
{
    let mut kept: Vec<Relationship> = Vec::new();
    let mut k: usize = 0;
    while k < rels.len()
        invariant
            k <= rels@.len(),
            kept@ == unexcluded(rels@.take(k as int), ids@),
        decreases rels@.len() - k,
    {
        assert(rels@.take(k + 1).drop_last() =~= rels@.take(k as int));
        if !contains_id(ids, rels[k].claim_id) {
            kept.push(rels[k]);
        }
        k = k + 1;
    }
    assert(rels@.take(k as int) =~= rels@);
    kept
}

/// A traversal stopped at an excluded claim now stops for the conflict.
pub open spec fn restopped(t: TraversalView, ids: Seq<ClaimId>) -> TraversalView {
    match t.stop {
        Some(stop) => if ids.contains(stop.claim_id) {
            TraversalView { stop: Some(TraversalStop { reason: TraversalStopReason::ConflictingClaim, ..stop }), ..t }
        } else {
            t
        },
        None => t,
    }
}

fn restop(traversals: &mut Vec<Traversal>, ids: &Vec<ClaimId>)
    ensures
        final(traversals)@.len() == old(traversals)@.len(),
        forall|k: int| 0 <= k < old(traversals)@.len() ==> (#[trigger] final(traversals)@[k])@ == restopped(old(traversals)@[k]@, ids@),
{
    let mut k: usize = 0;
    while k < traversals.len()
        invariant
            k <= traversals@.len(),
            traversals@.len() == old(traversals)@.len(),
            forall|j: int| 0 <= j < k ==> (#[trigger] traversals@[j])@ == restopped(old(traversals)@[j]@, ids@),
            forall|j: int| k <= j < traversals@.len() ==> #[trigger] traversals@[j] == old(traversals)@[j],
        decreases traversals@.len() - k,
    {
        if let Some(stop) = traversals[k].stop {
            if contains_id(ids, stop.claim_id) {
                traversals[k].stop = Some(TraversalStop { reason: TraversalStopReason::ConflictingClaim, ..stop });
            }
        }
        k = k + 1;
    }
}

/// Some freelist claim that names page `p` is among `ids`.
pub open spec fn page_excluded(alloc: Seq<RelationshipClaim>, ids: Seq<ClaimId>, p: u32) -> bool {
    exists|x: int| 0 <= x < incoming_of(alloc, p).len() && ids.contains(alloc[(#[trigger] incoming_of(alloc, p)[x]) as int].id)
}

/// The first position from `pos` whose page has an excluded freelist claim.
pub open spec fn first_excluded(prefix: Seq<PageIdentity>, alloc: Seq<RelationshipClaim>, ids: Seq<ClaimId>, pos: int) -> Option<int>
    decreases prefix.len() - pos,
{
    if pos < 0 || pos >= prefix.len() {
        None
    } else if page_excluded(alloc, ids, prefix[pos].page_number) {
        Some(pos)
    } else {
        first_excluded(prefix, alloc, ids, pos + 1)
    }
}

/// Allocation traversal `t` cut before its first page with an excluded freelist claim.
pub open spec fn cut_traversal(t: TraversalView, alloc: Seq<RelationshipClaim>, ids: Seq<ClaimId>) -> TraversalView {
    match first_excluded(t.validated_prefix, alloc, ids, 0) {
        Some(q) => {
            let claim = alloc[incoming_of(alloc, t.validated_prefix[q].page_number)[0] as int];
            TraversalView {
                validated_prefix: t.validated_prefix.take(q),
                stop: Some(TraversalStop { reason: TraversalStopReason::ConflictingClaim, claim_id: claim.id, intended_target: claim.target }),
                ..t
            }
        },
        None => t,
    }
}

/// Every page of `prefix` before its first page with an excluded freelist
/// claim, and that page, has a freelist claim naming it.
pub open spec fn pages_claimed(prefix: Seq<PageIdentity>, alloc: Seq<RelationshipClaim>, ids: Seq<ClaimId>) -> bool {
    forall|pos: int| 0 <= pos < prefix.len() && (forall|e: int| 0 <= e < pos ==> !page_excluded(alloc, ids, #[trigger] prefix[e].page_number))
        ==> incoming_of(alloc, (#[trigger] prefix[pos]).page_number).len() > 0
}

proof fn lemma_first_excluded_bound(prefix: Seq<PageIdentity>, alloc: Seq<RelationshipClaim>, ids: Seq<ClaimId>, pos: int)
    ensures
        first_excluded(prefix, alloc, ids, pos) matches Some(q) ==> pos <= q < prefix.len() && page_excluded(alloc, ids, prefix[q].page_number)
            && forall|e: int| pos <= e < q ==> !page_excluded(alloc, ids, #[trigger] prefix[e].page_number),
    decreases prefix.len() - pos,
{
    if 0 <= pos < prefix.len() && !page_excluded(alloc, ids, prefix[pos].page_number) {
        lemma_first_excluded_bound(prefix, alloc, ids, pos + 1);
    }
}

/// Whether a freelist claim among `ids` names page `p`.
fn has_excluded_claim(alloc: &Vec<RelationshipClaim>, ids: &Vec<ClaimId>, p: u32) -> (r: bool)
    ensures
        r == page_excluded(alloc@, ids@, p),
{
    let incoming = incoming_list(alloc, p);
    let count = alloc.len();
    proof {
        assert(count == alloc@.len());
        lemma_positions_where(naming(alloc@, p), alloc@.len() as int);
    }
    let mut x: usize = 0;
    while x < incoming.len()
        invariant
            incoming@ == incoming_of(alloc@, p),
            forall|y: int| 0 <= y < incoming@.len() ==> (#[trigger] incoming@[y]) < alloc@.len(),
            x <= incoming@.len(),
            forall|y: int| 0 <= y < x ==> !ids@.contains(alloc@[(#[trigger] incoming@[y]) as int].id),
        decreases incoming@.len() - x,
    {
        if contains_id(ids, alloc[incoming[x]].id) {
            return true;
        }
        x = x + 1;
    }
    false
}


/// The claim at which the last of the first `n` allocation traversals that
/// are cut stops, if any is cut.
pub open spec fn last_cut(ts: Seq<Traversal>, alloc: Seq<RelationshipClaim>, ids: Seq<ClaimId>, n: int) -> Option<ClaimId>
    decreases n,
{
    if n <= 0 {
        None
    } else {
        match cut_traversal(ts[n - 1]@, alloc, ids).stop {
            Some(stop) => if first_excluded(ts[n - 1]@.validated_prefix, alloc, ids, 0) is Some {
                Some(stop.claim_id)
            } else {
                last_cut(ts, alloc, ids, n - 1)
            },
            None => last_cut(ts, alloc, ids, n - 1),
        }
    }
}

/// Cuts each allocation traversal before its first page with an excluded
/// freelist claim; the freelist coverage records the claim of the last cut.
fn cut_traversals(allocation: &mut Allocation, ids: &Vec<ClaimId>)
    ensures
        final(allocation).claims@ == old(allocation).claims@,
        final(allocation).relationships@ == old(allocation).relationships@,
        final(allocation).diagnostics@ == old(allocation).diagnostics@,
        final(allocation).traversals@.len() == old(allocation).traversals@.len(),
        forall|k: int| 0 <= k < old(allocation).traversals@.len() ==> (#[trigger] final(allocation).traversals@[k])@
            == cut_traversal(old(allocation).traversals@[k]@, old(allocation).claims@, ids@),
        final(allocation).freelist.coverage == (crate::freelist::FreelistCoverage {
            stopping_claim: match last_cut(old(allocation).traversals@, old(allocation).claims@, ids@, old(allocation).traversals@.len() as int) {
                Some(id) => Some(id),
                None => old(allocation).freelist.coverage.stopping_claim,
            },
            ..old(allocation).freelist.coverage
        }),
        final(allocation).freelist.first_trunk == old(allocation).freelist.first_trunk,
        final(allocation).freelist.declared_count == old(allocation).freelist.declared_count,
        final(allocation).freelist.trunks@ == old(allocation).freelist.trunks@,
{
    let ghost ots = allocation.traversals@;
    let ghost alloc = allocation.claims@;
    let mut k: usize = 0;
    while k < allocation.traversals.len()
        invariant
            ots == old(allocation).traversals@,
            alloc == old(allocation).claims@,
            allocation.claims@ == alloc,
            allocation.relationships@ == old(allocation).relationships@,
            allocation.diagnostics@ == old(allocation).diagnostics@,
            allocation.traversals@.len() == ots.len(),
            k <= ots.len(),
            forall|j: int| 0 <= j < k ==> (#[trigger] allocation.traversals@[j])@ == cut_traversal(ots[j]@, alloc, ids@),
            forall|j: int| k <= j < ots.len() ==> #[trigger] allocation.traversals@[j] == ots[j],
            allocation.freelist.coverage == (crate::freelist::FreelistCoverage {
                stopping_claim: match last_cut(ots, alloc, ids@, k as int) {
                    Some(id) => Some(id),
                    None => old(allocation).freelist.coverage.stopping_claim,
                },
                ..old(allocation).freelist.coverage
            }),
            allocation.freelist.first_trunk == old(allocation).freelist.first_trunk,
            allocation.freelist.declared_count == old(allocation).freelist.declared_count,
            allocation.freelist.trunks@ == old(allocation).freelist.trunks@,
        decreases ots.len() - k,
    {
        let ghost view = ots[k as int]@;
        let n = allocation.traversals[k].validated_prefix.len();
        let mut pos: usize = 0;
        while pos < n && !has_excluded_claim(&allocation.claims, ids, allocation.traversals[k].validated_prefix[pos].page_number)
            invariant
                k < ots.len(),
                allocation.traversals@.len() == ots.len(),
                allocation.traversals@[k as int] == ots[k as int],
                view == ots[k as int]@,
                n == view.validated_prefix.len(),
                allocation.claims@ == alloc,
                pos <= n,
                first_excluded(view.validated_prefix, alloc, ids@, 0) == first_excluded(view.validated_prefix, alloc, ids@, pos as int),
            decreases n - pos,
        {
            pos = pos + 1;
        }
        let found = pos < n;
        proof {
            lemma_first_excluded_bound(view.validated_prefix, alloc, ids@, pos as int);
        }
        let ghost before = allocation.traversals@;
        if found {
            let page = allocation.traversals[k].validated_prefix[pos].page_number;
            let incoming = incoming_list(&allocation.claims, page);
            let count = allocation.claims.len();
            proof {
                assert(count == alloc.len());
                lemma_positions_where(naming(alloc, page), alloc.len() as int);
                assert(first_excluded(view.validated_prefix, alloc, ids@, 0) == Some(pos as int));
                assert(page_excluded(alloc, ids@, page));
            }
            let claim = allocation.claims[incoming[0]];
            let prefix = copy_prefix(&allocation.traversals[k].validated_prefix, pos);
            let cut = Traversal {
                kind: allocation.traversals[k].kind,
                origin: allocation.traversals[k].origin,
                validated_prefix: prefix,
                stop: Some(TraversalStop { reason: TraversalStopReason::ConflictingClaim, claim_id: claim.id, intended_target: claim.target }),
            };
            allocation.traversals.set(k, cut);
            allocation.freelist.coverage.stopping_claim = Some(claim.id);
            proof {
                assert(view.validated_prefix.subrange(0, pos as int) =~= view.validated_prefix.take(pos as int));
                assert(allocation.traversals@[k as int]@ == cut_traversal(view, alloc, ids@));
                assert(last_cut(ots, alloc, ids@, k + 1) == Some(claim.id));
            }
        } else {
            proof {
                assert(first_excluded(view.validated_prefix, alloc, ids@, pos as int) is None);
                assert(last_cut(ots, alloc, ids@, k + 1) == last_cut(ots, alloc, ids@, k as int));
            }
        }
        proof {
            assert forall|j: int| 0 <= j < k + 1 implies (#[trigger] allocation.traversals@[j])@ == cut_traversal(ots[j]@, alloc, ids@) by {
                if j < k {
                    assert(allocation.traversals@[j] == before[j]);
                }
            }
            assert forall|j: int| k + 1 <= j < ots.len() implies #[trigger] allocation.traversals@[j] == ots[j] by {
                assert(allocation.traversals@[j] == before[j]);
            }
        }
        k = k + 1;
    }
}


/// The state that reconciling storage with the freelist leaves, once the
/// first `n` storage claims have been seen.
pub open spec fn storage_reconciled(
    os: Seq<RelationshipClaim>,
    op: Seq<PageEntity>,
    oa: Allocation,
    ots: Seq<Traversal>,
    storage: Seq<RelationshipClaim>,
    pages: Seq<PageEntity>,
    allocation: Allocation,
    traversals: Seq<Traversal>,
    n: int,
) -> bool {
    let ids = conflict_ids(os, op, oa.claims@, n);
    let reports = conflict_reports(os, op, oa.claims@, n);
    &&& 0 <= n <= os.len()
    &&& excluded_through(os, op, oa.claims@, storage, pages, allocation.claims@, n)
    &&& allocation.diagnostics@.len() == oa.diagnostics@.len() + reports.len()
    &&& forall|k: int| 0 <= k < oa.diagnostics@.len() ==> #[trigger] allocation.diagnostics@[k] == oa.diagnostics@[k]
    &&& forall|k: int| 0 <= k < reports.len() ==> (#[trigger] allocation.diagnostics@[oa.diagnostics@.len() + k])@ == reports[k]
    &&& allocation.relationships@ == unexcluded(oa.relationships@, ids)
    &&& traversals.len() == ots.len()
    &&& forall|k: int| 0 <= k < ots.len() ==> (#[trigger] traversals[k])@ == restopped(ots[k]@, ids)
    &&& allocation.traversals@.len() == oa.traversals@.len()
    &&& forall|k: int| 0 <= k < oa.traversals@.len() ==> (#[trigger] allocation.traversals@[k])@
        == cut_traversal(oa.traversals@[k]@, allocation.claims@, ids)
    &&& allocation.freelist.coverage.reason == (if oa.freelist.coverage.reason == FreelistCoverageReason::Complete && any_conflict(os, op, n) {
        FreelistCoverageReason::InvalidStructure
    } else {
        oa.freelist.coverage.reason
    })
    &&& allocation.freelist.coverage.remainder == (if oa.freelist.coverage.reason == FreelistCoverageReason::Complete && any_conflict(os, op, n) {
        None
    } else {
        oa.freelist.coverage.remainder
    })
    &&& allocation.freelist.coverage.evaluated_pages == oa.freelist.coverage.evaluated_pages
    &&& allocation.freelist.coverage.stopping_claim == match last_cut(oa.traversals@, allocation.claims@, ids, oa.traversals@.len() as int) {
        Some(id) => Some(id),
        None => oa.freelist.coverage.stopping_claim,
    }
}

/// Every freelist page that storage conflicts over, and every page of an
/// allocation traversal, is named by some freelist claim.
pub open spec fn storage_claimed(storage: Seq<RelationshipClaim>, pages: Seq<PageEntity>, allocation: Allocation) -> bool {
    &&& forall|i: int| 0 <= i < storage.len() && storage_conflict(#[trigger] storage[i], pages)
        ==> incoming_of(allocation.claims@, storage[i].target.unwrap().page_number).len() > 0
    &&& forall|k: int, pos: int| 0 <= k < allocation.traversals@.len() && 0 <= pos < allocation.traversals@[k].validated_prefix@.len()
        ==> incoming_of(allocation.claims@, (#[trigger] allocation.traversals@[k].validated_prefix@[pos]).page_number).len() > 0
}

proof fn lemma_unexcluded_none(rels: Seq<Relationship>)
    ensures
        unexcluded(rels, seq![]) == rels,
    decreases rels.len(),
{
    if rels.len() > 0 {
        lemma_unexcluded_none(rels.drop_last());
        assert(rels.drop_last().push(rels.last()) =~= rels);
    }
}

proof fn lemma_first_excluded_none(prefix: Seq<PageIdentity>, alloc: Seq<RelationshipClaim>, pos: int)
    ensures
        first_excluded(prefix, alloc, seq![], pos) is None,
    decreases prefix.len() - pos,
{
    if 0 <= pos < prefix.len() {
        lemma_first_excluded_none(prefix, alloc, pos + 1);
    }
}

proof fn lemma_last_cut_none(ts: Seq<Traversal>, alloc: Seq<RelationshipClaim>, n: int)
    ensures
        last_cut(ts, alloc, seq![], n) is None,
    decreases n,
{
    if n > 0 {
        lemma_last_cut_none(ts, alloc, n - 1);
        lemma_first_excluded_none(ts[n - 1]@.validated_prefix, alloc, 0);
    }
}

/// Reconciles storage with the freelist: each B-tree or overflow claim that
/// found a freelist page of the wrong type is excluded, together with the
/// freelist claims of that page, which is marked conflicting; relationships
/// of excluded claims are dropped, traversals that stopped at them stop for
/// the conflict, and allocation traversals end before an excluded page.
pub fn reconcile_storage(
    allocation: &mut Allocation,
    pages: &mut Vec<PageEntity>,
    storage: &mut Vec<RelationshipClaim>,
    traversals: &mut Vec<Traversal>,
    control: &mut WorkControl,
)
    requires
        old(pages)@.len() < u32::MAX,
        storage_claimed(old(storage)@, old(pages)@, *old(allocation)),
    ensures
        control_kept(*old(control), *final(control)),
        exists|n: int| #[trigger] storage_reconciled(
            old(storage)@,
            old(pages)@,
            *old(allocation),
            old(traversals)@,
            final(storage)@,
            final(pages)@,
            *final(allocation),
            final(traversals)@,
            n,
        ) && (!final(control).is_stopped() ==> n == old(storage)@.len()),
        final(allocation).freelist.first_trunk == old(allocation).freelist.first_trunk,
        final(allocation).freelist.declared_count == old(allocation).freelist.declared_count,
        final(allocation).freelist.trunks@ == old(allocation).freelist.trunks@,
        !final(control).is_stopped() ==> final(control).phase == TopologyPhase::AllocationReconciliation.spec_code()
            && final(control).phase_complete,
{
    let ghost os = storage@;
    let ghost op = pages@;
    let ghost oa = *allocation;
    let ghost ots = traversals@;
    control.begin_phase(TopologyPhase::AllocationReconciliation, None);
    let ghost begun = *control;
    let mut k: usize = 0;
    while k < allocation.claims.len()
        invariant
            k <= allocation.claims@.len(),
            storage@ == os,
            pages@ == op,
            *allocation == oa,
            traversals@ == ots,
            os == old(storage)@,
            op == old(pages)@,
            oa == *old(allocation),
            ots == old(traversals)@,
            control_kept(*old(control), *control),
            !control.is_stopped() ==> control.phase == begun.phase && control.phase_complete == begun.phase_complete && !begun.is_stopped(),
        decreases allocation.claims@.len() - k,
    {
        if control.stopped() {
            proof {
                lemma_unexcluded_none(oa.relationships@);
                lemma_last_cut_none(oa.traversals@, oa.claims@, oa.traversals@.len() as int);
                assert forall|j: int| 0 <= j < oa.traversals@.len() implies (#[trigger] oa.traversals@[j])@
                    == cut_traversal(oa.traversals@[j]@, oa.claims@, seq![]) by {
                    lemma_first_excluded_none(oa.traversals@[j]@.validated_prefix, oa.claims@, 0);
                }
                assert(storage_reconciled(os, op, oa, ots, storage@, pages@, *allocation, traversals@, 0));
            }
            return;
        }
        control.advance(TopologyPhase::AllocationReconciliation);
        k = k + 1;
    }
    let (ids, seen) = exclude_conflicts(allocation, pages, storage, control);
    let kept = retain_unexcluded(&allocation.relationships, &ids);
    allocation.relationships = kept;
    restop(traversals, &ids);
    let ghost before_cut = *allocation;
    cut_traversals(allocation, &ids);
    if !control.stopped() {
        control.finish_phase(TopologyPhase::AllocationReconciliation);
    }
    proof {
        assert(storage_reconciled(os, op, oa, ots, storage@, pages@, *allocation, traversals@, seen as int));
    }
}


/// Whether every freelist page that storage conflicts over, and every page
/// of an allocation traversal, is named by some freelist claim.
pub fn storage_claims_named(storage: &Vec<RelationshipClaim>, pages: &Vec<PageEntity>, allocation: &Allocation) -> (r: bool)
    ensures
        r == storage_claimed(storage@, pages@, *allocation),
{
    let mut i: usize = 0;
    while i < storage.len()
        invariant
            i <= storage@.len(),
            forall|j: int| 0 <= j < i && storage_conflict(#[trigger] storage@[j], pages@)
                ==> incoming_of(allocation.claims@, storage@[j].target.unwrap().page_number).len() > 0,
        decreases storage@.len() - i,
    {
        let claim = storage[i];
        if let Some(t) = claim.target {
            let t = t.page_number;
            if 1 <= t && (t as usize) <= pages.len() && pages[(t - 1) as usize].detail.allocation_role.is_some()
                && claim.stop_reason == Some(TraversalStopReason::TypeMismatch) {
                if incoming_list(&allocation.claims, t).len() == 0 {
                    assert(storage_conflict(storage@[i as int], pages@));
                    return false;
                }
            }
        }
        i = i + 1;
    }
    let mut k: usize = 0;
    while k < allocation.traversals.len()
        invariant
            forall|j: int| 0 <= j < storage@.len() && storage_conflict(#[trigger] storage@[j], pages@)
                ==> incoming_of(allocation.claims@, storage@[j].target.unwrap().page_number).len() > 0,
            k <= allocation.traversals@.len(),
            forall|x: int, pos: int| 0 <= x < k && 0 <= pos < allocation.traversals@[x].validated_prefix@.len()
                ==> incoming_of(allocation.claims@, (#[trigger] allocation.traversals@[x].validated_prefix@[pos]).page_number).len() > 0,
        decreases allocation.traversals@.len() - k,
    {
        let prefix = &allocation.traversals[k].validated_prefix;
        let mut pos: usize = 0;
        while pos < prefix.len()
            invariant
                k < allocation.traversals@.len(),
                *prefix == allocation.traversals@[k as int].validated_prefix,
                pos <= prefix@.len(),
                forall|q: int| 0 <= q < pos ==> incoming_of(allocation.claims@, (#[trigger] prefix@[q]).page_number).len() > 0,
            decreases prefix@.len() - pos,
        {
            if incoming_list(&allocation.claims, prefix[pos].page_number).len() == 0 {
                return false;
            }
            pos = pos + 1;
        }
        k = k + 1;
    }
    true
}

} // verus!
