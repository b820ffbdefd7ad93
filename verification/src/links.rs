//! Operations shared by every kind of relationship claim: excluding claims
//! that conflict, withdrawing unfinished validation, and listing the
//! relationships that validated claims establish.
use vstd::prelude::*;

use crate::freelist::validated_relationships;
use crate::topology::control_kept;
use crate::topology::{
    Containment, DiagnosticCode, DiagnosticSeverity, DiagnosticView, Relationship, RelationshipClaim, RelationshipKind,
    RelationshipState, StructuralDiagnostic, TopologyPhase, TraversalStopReason, WorkControl,
};

verus! {

/// `claim` once unfinished validation is withdrawn from claims of `kind`.
pub open spec fn downgraded(claim: RelationshipClaim, kind: RelationshipKind) -> RelationshipClaim {
    if claim.kind == kind && claim.state == RelationshipState::Validated {
        RelationshipClaim { state: RelationshipState::Unresolved, stop_reason: None, ..claim }
    } else {
        claim
    }
}

/// Withdraws validation from every validated claim of `kind`: work that
/// stopped part-way publishes no relationship of that kind as validated.
pub fn downgrade_validated_claims(claims: &mut Vec<RelationshipClaim>, kind: RelationshipKind)
    ensures
        final(claims)@.len() == old(claims)@.len(),
        forall|i: int| 0 <= i < old(claims)@.len() ==> #[trigger] final(claims)@[i] == downgraded(old(claims)@[i], kind),
{
    let mut i: usize = 0;
    while i < claims.len()
        invariant
            i <= claims@.len(),
            claims@.len() == old(claims)@.len(),
            forall|j: int| 0 <= j < i ==> #[trigger] claims@[j] == downgraded(old(claims)@[j], kind),
            forall|j: int| i <= j < claims@.len() ==> #[trigger] claims@[j] == old(claims)@[j],
        decreases claims@.len() - i,
    {
        if claims[i].kind == kind && claims[i].state == RelationshipState::Validated {
            claims[i].state = RelationshipState::Unresolved;
            claims[i].stop_reason = None;
        }
        i = i + 1;
    }
}

/// The diagnostic that excludes the claims at `indexes` together.
pub open spec fn spec_conflict(claims: Seq<RelationshipClaim>, indexes: Seq<usize>, code: DiagnosticCode, containment: Containment) -> DiagnosticView {
    DiagnosticView {
        code,
        severity: DiagnosticSeverity::Error,
        evidence: indexes.map_values(|i: usize| claims[i as int].evidence),
        affected_relationships: indexes.map_values(|i: usize| claims[i as int].id),
        containment,
    }
}

/// Some position in `lo..hi` of `indexes` holds `j`.
pub open spec fn listed(indexes: Seq<usize>, lo: int, hi: int, j: int) -> bool {
    exists|w: int| lo <= w < hi && #[trigger] indexes[w] as int == j
}

/// Marks the validated claims at `indexes` as conflicting for `reason` and
/// reports them together. A stop observed part-way leaves every claim as it
/// was and reports nothing.
pub fn conflicting_claims_bounded(
    claims: &mut Vec<RelationshipClaim>,
    indexes: &Vec<usize>,
    code: DiagnosticCode,
    reason: TraversalStopReason,
    containment: Containment,
    control: &mut WorkControl,
    phase: TopologyPhase,
) -> (r: Option<StructuralDiagnostic>)
    requires
        indexes@.no_duplicates(),
        forall|k: int| 0 <= k < indexes@.len() ==> (#[trigger] indexes@[k]) < old(claims)@.len(),
        forall|k: int| 0 <= k < indexes@.len() ==> old(claims)@[#[trigger] indexes@[k] as int].state == RelationshipState::Validated,
        forall|k: int| 0 <= k < indexes@.len() ==> old(claims)@[#[trigger] indexes@[k] as int].stop_reason is None,
    ensures
        final(claims)@.len() == old(claims)@.len(),
        control_kept(*old(control), *final(control)),
        final(control).phase == old(control).phase,
        final(control).phase_complete == old(control).phase_complete,
        r is None ==> final(control).is_stopped(),
        r is None ==> final(claims)@ == old(claims)@,
        r matches Some(d) ==> {
            &&& d@ == spec_conflict(old(claims)@, indexes@, code, containment)
            &&& forall|j: int| 0 <= j < old(claims)@.len() ==> #[trigger] final(claims)@[j] == if listed(indexes@, 0, indexes@.len() as int, j) {
                RelationshipClaim { state: RelationshipState::Conflicting, stop_reason: Some(reason), ..old(claims)@[j] }
            } else {
                old(claims)@[j]
            }
        },
{
    let mut evidence = Vec::new();
    let mut affected = Vec::new();
    let mut k: usize = 0;
    while k < indexes.len()
        invariant
            k <= indexes@.len(),
            claims@ == old(claims)@,
            forall|m: int| 0 <= m < indexes@.len() ==> (#[trigger] indexes@[m]) < old(claims)@.len(),
            control_kept(*old(control), *control),
            control.phase == old(control).phase,
            control.phase_complete == old(control).phase_complete,
            evidence@ == indexes@.subrange(0, k as int).map_values(|i: usize| old(claims)@[i as int].evidence),
            affected@ == indexes@.subrange(0, k as int).map_values(|i: usize| old(claims)@[i as int].id),
        decreases indexes@.len() - k,
    {
        if control.stopped() {
            return None;
        }
        let index = indexes[k];
        evidence.push(claims[index].evidence);
        affected.push(claims[index].id);
        control.advance(phase);
        assert(indexes@.subrange(0, k + 1).map_values(|i: usize| old(claims)@[i as int].evidence)
            =~= indexes@.subrange(0, k as int).map_values(|i: usize| old(claims)@[i as int].evidence).push(old(claims)@[indexes@[k as int] as int].evidence));
        assert(indexes@.subrange(0, k + 1).map_values(|i: usize| old(claims)@[i as int].id)
            =~= indexes@.subrange(0, k as int).map_values(|i: usize| old(claims)@[i as int].id).push(old(claims)@[indexes@[k as int] as int].id));
        k = k + 1;
    }
    assert(indexes@.subrange(0, indexes@.len() as int) =~= indexes@);
    let mut k: usize = 0;
    while k < indexes.len()
        invariant
            k <= indexes@.len(),
            indexes@.no_duplicates(),
            claims@.len() == old(claims)@.len(),
            control_kept(*old(control), *control),
            control.phase == old(control).phase,
            control.phase_complete == old(control).phase_complete,
            forall|m: int| 0 <= m < indexes@.len() ==> (#[trigger] indexes@[m]) < old(claims)@.len(),
            forall|m: int| 0 <= m < indexes@.len() ==> old(claims)@[#[trigger] indexes@[m] as int].state == RelationshipState::Validated,
            forall|m: int| 0 <= m < indexes@.len() ==> old(claims)@[#[trigger] indexes@[m] as int].stop_reason is None,
            forall|j: int| 0 <= j < old(claims)@.len() ==> #[trigger] claims@[j] == if listed(indexes@, 0, k as int, j) {
                RelationshipClaim { state: RelationshipState::Conflicting, stop_reason: Some(reason), ..old(claims)@[j] }
            } else {
                old(claims)@[j]
            },
        decreases indexes@.len() - k,
    {
        if control.stopped() {
            let mut m: usize = 0;
            while m < k
                invariant
                    control.is_stopped(),
                    control.phase == old(control).phase,
                    control.phase_complete == old(control).phase_complete,
                    m <= k <= indexes@.len(),
                    indexes@.no_duplicates(),
                    claims@.len() == old(claims)@.len(),
                    forall|q: int| 0 <= q < indexes@.len() ==> (#[trigger] indexes@[q]) < old(claims)@.len(),
                    forall|q: int| 0 <= q < indexes@.len() ==> old(claims)@[#[trigger] indexes@[q] as int].state == RelationshipState::Validated,
                    forall|q: int| 0 <= q < indexes@.len() ==> old(claims)@[#[trigger] indexes@[q] as int].stop_reason is None,
                    forall|j: int| 0 <= j < old(claims)@.len() ==> #[trigger] claims@[j] == if listed(indexes@, m as int, k as int, j) {
                        RelationshipClaim { state: RelationshipState::Conflicting, stop_reason: Some(reason), ..old(claims)@[j] }
                    } else {
                        old(claims)@[j]
                    },
                decreases k - m,
            {
                let index = indexes[m];
                let ghost before = claims@;
                claims[index].state = RelationshipState::Validated;
                claims[index].stop_reason = None;
                proof {
                    assert forall|j: int| 0 <= j < old(claims)@.len() implies #[trigger] claims@[j] == if listed(indexes@, m + 1, k as int, j) {
                        RelationshipClaim { state: RelationshipState::Conflicting, stop_reason: Some(reason), ..old(claims)@[j] }
                    } else {
                        old(claims)@[j]
                    } by {
                        if j == index {
                            assert(old(claims)@[j].state == RelationshipState::Validated);
                            assert(listed(indexes@, m as int, k as int, j)) by {
                                assert(indexes@[m as int] as int == j);
                            }
                            if listed(indexes@, m + 1, k as int, j) {
                                let w = choose|w: int| m + 1 <= w < k && #[trigger] indexes@[w] as int == j;
                                assert(indexes@[w] == indexes@[m as int]);
                            }
                        } else {
                            if listed(indexes@, m as int, k as int, j) {
                                let w = choose|w: int| m <= w < k && #[trigger] indexes@[w] as int == j;
                                assert(w != m);
                            }
                            if listed(indexes@, m + 1, k as int, j) {
                                let w = choose|w: int| m + 1 <= w < k && #[trigger] indexes@[w] as int == j;
                                assert(m <= w);
                            }
                            assert(claims@[j] == before[j]);
                        }
                    }
                }
                m = m + 1;
            }
            proof {
                assert(claims@ =~= old(claims)@);
            }
            return None;
        }
        let index = indexes[k];
        let ghost before = claims@;
        claims[index].state = RelationshipState::Conflicting;
        claims[index].stop_reason = Some(reason);
        proof {
            assert forall|j: int| 0 <= j < old(claims)@.len() implies #[trigger] claims@[j] == if listed(indexes@, 0, k + 1, j) {
                RelationshipClaim { state: RelationshipState::Conflicting, stop_reason: Some(reason), ..old(claims)@[j] }
            } else {
                old(claims)@[j]
            } by {
                if j == index {
                    assert(indexes@[k as int] as int == j);
                    if listed(indexes@, 0, k as int, j) {
                        assert(before[j] == RelationshipClaim { state: RelationshipState::Conflicting, stop_reason: Some(reason), ..old(claims)@[j] });
                    }
                } else {
                    if listed(indexes@, 0, k + 1, j) {
                        let w = choose|w: int| 0 <= w < k + 1 && #[trigger] indexes@[w] as int == j;
                        assert(w < k);
                    }
                    assert(claims@[j] == before[j]);
                }
            }
        }
        control.advance(phase);
        k = k + 1;
    }
    let r = StructuralDiagnostic { code, severity: DiagnosticSeverity::Error, evidence, affected_relationships: affected, containment };
    proof {
        assert(indexes@.subrange(0, indexes@.len() as int) =~= indexes@);
    }
    Some(r)
}

/// Lists the relationships of the validated claims, in claim order. A stop
/// observed part-way leaves the list short and reports false.
pub fn normalize_relationships(claims: &Vec<RelationshipClaim>, phase: TopologyPhase, control: &mut WorkControl) -> (r: (Vec<Relationship>, bool))
    ensures
        control_kept(*old(control), *final(control)),
        r.1 ==> r.0@ == validated_relationships(claims@),
        !r.1 ==> exists|k: int| 0 <= k <= claims@.len() && r.0@ == validated_relationships(claims@.subrange(0, k)),
        !r.1 ==> final(control).is_stopped(),
{
    control.begin_phase(phase, Some(claims.len() as u64));
    let mut relationships = Vec::new();
    let mut i: usize = 0;
    while i < claims.len()
        invariant
            i <= claims@.len(),
            control_kept(*old(control), *control),
            relationships@ == validated_relationships(claims@.subrange(0, i as int)),
        decreases claims@.len() - i,
    {
        if control.stopped() {
            return (relationships, false);
        }
        let claim = claims[i];
        assert(claims@.subrange(0, i + 1).drop_last() =~= claims@.subrange(0, i as int));
        if claim.state == RelationshipState::Validated {
            if let Some(target) = claim.target {
                relationships.push(Relationship { claim_id: claim.id, kind: claim.kind, source: claim.source, target });
            }
        }
        control.advance(phase);
        i = i + 1;
    }
    control.finish_phase(phase);
    assert(claims@.subrange(0, claims@.len() as int) =~= claims@);
    (relationships, true)
}

} // verus!
