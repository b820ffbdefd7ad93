//! Physical page-role evidence: what each page is claimed to be, and by whom.
use vstd::prelude::*;

use crate::btree::{spec_range, ByteRange, Kind, LocalCoverage, PageDetail, PageView, Region, RegionKind};
use crate::geometry::{geometry_wf, lock_page, map_for, spec_lock_page, spec_map_for, DatabaseGeometry};
use crate::inventory::PageEntity;
use crate::pointer_map::{same_facts, PointerMapDiagnostic, PointerMapEntry, PointerMapEvidence, PointerMapKind, PointerMapPage};
use crate::topology::control_kept;
use crate::topology::{
    ClaimId, Containment, DiagnosticCode, DiagnosticSeverity, DiagnosticView, EntityIdentity, PageIdentity, PhysicalEvidence,
    spec_source_page, RelationshipClaim, RelationshipKind, RelationshipState, StructuralDiagnostic, Topology, TopologyPhase, TraversalStopReason,
    Relationship, Traversal, TraversalStop, TraversalView, ValidationRule, WorkControl,
};

verus! {

#[derive(Clone, Copy, Debug, PartialEq, Eq, Structural)]
pub enum PageRole {
    Btree,
    TableLeaf,
    TableInterior,
    IndexLeaf,
    IndexInterior,
    Freelist,
    FreelistTrunk,
    FreelistLeaf,
    Overflow,
    PointerMap,
    LockByte,
    Unknown,
    Conflicting,
}

/// Who makes a role claim.
#[derive(Clone, Copy, Debug, PartialEq, Eq, Structural)]
pub enum RoleSource {
    LocalStructure,
    DatabaseGeometry,
    Relationship,
    PointerMap,
}

#[derive(Clone, Copy, Debug, PartialEq, Eq, Structural)]
pub struct RoleClaim {
    pub role: PageRole,
    pub source: RoleSource,
    pub evidence: PhysicalEvidence,
    pub state: RelationshipState,
    pub relationship_id: Option<ClaimId>,
    pub relationship_stop: Option<TraversalStopReason>,
}

#[derive(Clone, Debug, PartialEq, Eq)]
pub struct PageClassification {
    pub role: PageRole,
    pub claims: Vec<RoleClaim>,
    /// A relationship names this page, independently of whether it validated.
    pub referenced: bool,
    pub reconciled: bool,
}

pub open spec fn spec_role_of(kind: Kind) -> PageRole {
    match kind {
        Kind::TableLeaf => PageRole::TableLeaf,
        Kind::TableInterior => PageRole::TableInterior,
        Kind::IndexLeaf => PageRole::IndexLeaf,
        Kind::IndexInterior => PageRole::IndexInterior,
    }
}

/// The role that a local B-tree header establishes.
pub fn role_of(kind: Kind) -> (r: PageRole)
    ensures
        r == spec_role_of(kind),
        kind == Kind::TableLeaf ==> r == PageRole::TableLeaf,
        kind == Kind::TableInterior ==> r == PageRole::TableInterior,
        kind == Kind::IndexLeaf ==> r == PageRole::IndexLeaf,
        kind == Kind::IndexInterior ==> r == PageRole::IndexInterior,
{
    match kind {
        Kind::TableLeaf => PageRole::TableLeaf,
        Kind::TableInterior => PageRole::TableInterior,
        Kind::IndexLeaf => PageRole::IndexLeaf,
        Kind::IndexInterior => PageRole::IndexInterior,
    }
}

pub open spec fn is_specific_btree(role: PageRole) -> bool {
    role is TableLeaf || role is TableInterior || role is IndexLeaf || role is IndexInterior
}

pub open spec fn is_specific_freelist(role: PageRole) -> bool {
    role is FreelistTrunk || role is FreelistLeaf
}

/// Combines two role claims: Unknown yields to anything, a generic B-tree or
/// freelist role yields to a specific one of its family, equal roles agree,
/// and anything else conflicts.
pub open spec fn spec_merge(left: PageRole, right: PageRole) -> PageRole {
    if left == PageRole::Unknown {
        right
    } else if right == PageRole::Unknown {
        left
    } else if left == right {
        left
    } else if left == PageRole::Btree && is_specific_btree(right) {
        right
    } else if right == PageRole::Btree && is_specific_btree(left) {
        left
    } else if left == PageRole::Freelist && is_specific_freelist(right) {
        right
    } else if right == PageRole::Freelist && is_specific_freelist(left) {
        left
    } else {
        PageRole::Conflicting
    }
}

fn specific_btree(role: PageRole) -> (r: bool)
    ensures
        r == is_specific_btree(role),
{
    match role {
        PageRole::TableLeaf | PageRole::TableInterior | PageRole::IndexLeaf | PageRole::IndexInterior => true,
        _ => false,
    }
}

fn specific_freelist(role: PageRole) -> (r: bool)
    ensures
        r == is_specific_freelist(role),
{
    match role {
        PageRole::FreelistTrunk | PageRole::FreelistLeaf => true,
        _ => false,
    }
}

pub fn merge(left: PageRole, right: PageRole) -> (r: PageRole)
    ensures
        r == spec_merge(left, right),
        left == PageRole::Freelist && (right == PageRole::FreelistTrunk || right == PageRole::FreelistLeaf) ==> r == right,
        right == PageRole::Freelist && (left == PageRole::FreelistTrunk || left == PageRole::FreelistLeaf) ==> r == left,
        left == PageRole::Btree && (right == PageRole::TableLeaf || right == PageRole::TableInterior
            || right == PageRole::IndexLeaf || right == PageRole::IndexInterior) ==> r == right,
        right == PageRole::Btree && (left == PageRole::TableLeaf || left == PageRole::TableInterior
            || left == PageRole::IndexLeaf || left == PageRole::IndexInterior) ==> r == left,
        r == left || r == right || r == PageRole::Conflicting,
{
    if left == PageRole::Unknown {
        right
    } else if right == PageRole::Unknown {
        left
    } else if left == right {
        left
    } else if left == PageRole::Btree && specific_btree(right) {
        right
    } else if right == PageRole::Btree && specific_btree(left) {
        left
    } else if left == PageRole::Freelist && specific_freelist(right) {
        right
    } else if right == PageRole::Freelist && specific_freelist(left) {
        left
    } else {
        PageRole::Conflicting
    }
}

/// A generic role yields to a specific role of its own family: a freelist
/// claim to a trunk or leaf claim, a B-tree claim to any of the four B-tree
/// page kinds. Roles of different families, or two different specific roles,
/// conflict, and Unknown yields to everything.
pub proof fn law_generic_role_yields(r: PageRole)
    ensures
        spec_merge(PageRole::Freelist, PageRole::FreelistTrunk) == PageRole::FreelistTrunk,
        spec_merge(PageRole::Freelist, PageRole::FreelistLeaf) == PageRole::FreelistLeaf,
        spec_merge(PageRole::FreelistTrunk, PageRole::Freelist) == PageRole::FreelistTrunk,
        spec_merge(PageRole::FreelistLeaf, PageRole::Freelist) == PageRole::FreelistLeaf,
        spec_merge(PageRole::Btree, PageRole::TableLeaf) == PageRole::TableLeaf,
        spec_merge(PageRole::Btree, PageRole::TableInterior) == PageRole::TableInterior,
        spec_merge(PageRole::Btree, PageRole::IndexLeaf) == PageRole::IndexLeaf,
        spec_merge(PageRole::Btree, PageRole::IndexInterior) == PageRole::IndexInterior,
        spec_merge(PageRole::FreelistTrunk, PageRole::FreelistLeaf) == PageRole::Conflicting,
        spec_merge(PageRole::Freelist, PageRole::Btree) == PageRole::Conflicting,
        spec_merge(PageRole::Freelist, PageRole::TableLeaf) == PageRole::Conflicting,
        spec_merge(PageRole::Btree, PageRole::FreelistTrunk) == PageRole::Conflicting,
        spec_merge(PageRole::TableLeaf, PageRole::IndexLeaf) == PageRole::Conflicting,
        spec_merge(PageRole::Overflow, PageRole::FreelistLeaf) == PageRole::Conflicting,
        spec_merge(PageRole::Unknown, r) == r,
        spec_merge(r, r) == r,
{
}

/// Role merging does not depend on the order of claims: it is commutative and
/// associative, Unknown is its identity, and Conflicting absorbs everything.
pub proof fn law_merge_is_order_independent(a: PageRole, b: PageRole, c: PageRole)
    ensures
        spec_merge(a, b) == spec_merge(b, a),
        spec_merge(spec_merge(a, b), c) == spec_merge(a, spec_merge(b, c)),
        spec_merge(a, PageRole::Unknown) == a,
        spec_merge(a, a) == a,
        spec_merge(PageRole::Conflicting, a) == PageRole::Conflicting,
{
}

/// Claims that count toward a page's physical role.
pub open spec fn spec_credible(state: RelationshipState) -> bool {
    state is Validated || state is Conflicting
}

pub fn credible(state: RelationshipState) -> (r: bool)
    ensures
        r == spec_credible(state),
{
    match state {
        RelationshipState::Validated | RelationshipState::Conflicting => true,
        _ => false,
    }
}

/// The role a dependent claim needs its source page to keep.
#[derive(Clone, Copy, Debug, PartialEq, Eq, Structural)]
pub enum Requirement {
    Header,
    Btree,
    Overflow,
    FreelistTrunk,
}

impl Requirement {
    pub open spec fn spec_accepts(self, role: PageRole) -> bool {
        match self {
            Requirement::Header => true,
            Requirement::Btree => role is Btree || is_specific_btree(role),
            Requirement::Overflow => role is Overflow,
            Requirement::FreelistTrunk => role is FreelistTrunk,
        }
    }

    pub fn accepts(self, role: PageRole) -> (r: bool)
        ensures
            r == self.spec_accepts(role),
    {
        match self {
            Requirement::Header => true,
            Requirement::Btree => match role {
                PageRole::Btree => true,
                _ => specific_btree(role),
            },
            Requirement::Overflow => match role {
                PageRole::Overflow => true,
                _ => false,
            },
            Requirement::FreelistTrunk => match role {
                PageRole::FreelistTrunk => true,
                _ => false,
            },
        }
    }
}

/// Evidence at `[offset, offset + length)` of `page`.
pub open spec fn spec_evidence(geometry: DatabaseGeometry, page: u32, offset: u32, length: u32, rule: ValidationRule) -> PhysicalEvidence {
    PhysicalEvidence {
        page: PageIdentity { page_number: page },
        range: ByteRange {
            page_offset: offset,
            file_offset: ((page - 1) * geometry.page_size + offset) as u64,
            length,
        },
        validation_rule: rule,
    }
}

pub fn evidence(geometry: &DatabaseGeometry, page: u32, offset: u32, length: u32, rule: ValidationRule) -> (r: PhysicalEvidence)
    requires
        page >= 1,
        geometry.page_size <= 65536,
    ensures
        r == spec_evidence(*geometry, page, offset, length, rule),
{
    proof {
        assert((page - 1) * geometry.page_size <= 0xffff_ffffu64 * 65536) by (nonlinear_arith)
            requires page >= 1, page <= 0xffff_ffff, geometry.page_size <= 65536;
    }
    PhysicalEvidence {
        page: PageIdentity { page_number: page },
        range: ByteRange {
            page_offset: offset,
            file_offset: (page - 1) as u64 * geometry.page_size as u64 + offset as u64,
            length,
        },
        validation_rule: rule,
    }
}

/// The role that database geometry alone assigns: the lock-byte page, or a
/// pointer-map page of an auto-vacuum database.
pub open spec fn spec_reserved_role(geometry: DatabaseGeometry, number: u32) -> Option<PageRole> {
    if number == spec_lock_page(geometry.page_size as int) {
        Some(PageRole::LockByte)
    } else if spec_map_for(geometry, number as int) == Some(number as int) {
        Some(PageRole::PointerMap)
    } else {
        None
    }
}

pub fn reserved_role(geometry: &DatabaseGeometry, number: u32) -> (r: Option<PageRole>)
    requires
        geometry.page_size > 0,
    ensures
        r == spec_reserved_role(*geometry, number),
{
    if number == lock_page(geometry) {
        Some(PageRole::LockByte)
    } else if map_for(geometry, number) == Some(number) {
        Some(PageRole::PointerMap)
    } else {
        None
    }
}

/// The classification a page's own header supports.
pub open spec fn spec_local(number: u32, detail: PageView) -> (PageRole, Seq<RoleClaim>) {
    match (detail.kind, detail.header) {
        (Some(kind), Some(header)) => (spec_role_of(kind), seq![RoleClaim {
            role: spec_role_of(kind),
            source: RoleSource::LocalStructure,
            evidence: PhysicalEvidence {
                page: PageIdentity { page_number: number },
                range: header.range,
                validation_rule: ValidationRule::BtreeHeader,
            },
            state: RelationshipState::Validated,
            relationship_id: None,
            relationship_stop: None,
        }]),
        _ => (PageRole::Unknown, seq![]),
    }
}

pub fn local(number: u32, detail: &PageDetail) -> (r: PageClassification)
    ensures
        (r.role, r.claims@) == spec_local(number, detail@),
        !r.referenced,
        !r.reconciled,
{
    let mut claims: Vec<RoleClaim> = Vec::new();
    let role = match (detail.kind, detail.header) {
        (Some(kind), Some(header)) => {
            claims.push(RoleClaim {
                role: role_of(kind),
                source: RoleSource::LocalStructure,
                evidence: PhysicalEvidence {
                    page: PageIdentity { page_number: number },
                    range: header.range,
                    validation_rule: ValidationRule::BtreeHeader,
                },
                state: RelationshipState::Validated,
                relationship_id: None,
                relationship_stop: None,
            });
            role_of(kind)
        },
        _ => PageRole::Unknown,
    };
    let r = PageClassification { role, claims, referenced: false, reconciled: false };
    assert(r.claims@ =~= spec_local(number, detail@).1);
    r
}

/// The first classification of a page: geometry-reserved pages are claimed by
/// the header field that defines them; other pages by their own structure.
pub open spec fn spec_initial(geometry: DatabaseGeometry, number: u32, detail: PageView) -> (PageRole, Seq<RoleClaim>) {
    match spec_reserved_role(geometry, number) {
        Some(role) => (role, seq![RoleClaim {
            role,
            source: RoleSource::DatabaseGeometry,
            evidence: if role == PageRole::PointerMap {
                spec_evidence(geometry, 1, 52, 4, ValidationRule::ReservedPageGeometry)
            } else {
                spec_evidence(geometry, 1, 16, 2, ValidationRule::ReservedPageGeometry)
            },
            state: RelationshipState::Validated,
            relationship_id: None,
            relationship_stop: None,
        }]),
        None => spec_local(number, detail),
    }
}

pub fn initial(geometry: &DatabaseGeometry, number: u32, detail: &PageDetail) -> (r: PageClassification)
    requires
        geometry_wf(*geometry),
    ensures
        (r.role, r.claims@) == spec_initial(*geometry, number, detail@),
        !r.referenced,
        !r.reconciled,
{
    match reserved_role(geometry, number) {
        Some(role) => {
            let is_map = match role {
                PageRole::PointerMap => true,
                _ => false,
            };
            let source = if is_map {
                evidence(geometry, 1, 52, 4, ValidationRule::ReservedPageGeometry)
            } else {
                evidence(geometry, 1, 16, 2, ValidationRule::ReservedPageGeometry)
            };
            let mut claims = Vec::new();
            claims.push(RoleClaim {
                role,
                source: RoleSource::DatabaseGeometry,
                evidence: source,
                state: RelationshipState::Validated,
                relationship_id: None,
                relationship_stop: None,
            });
            let r = PageClassification { role, claims, referenced: false, reconciled: false };
            assert(r.claims@ =~= spec_initial(*geometry, number, detail@).1);
            r
        },
        None => local(number, detail),
    }
}

/// Checks for a stop before one more unit of role reconciliation, and counts
/// the unit when work goes on.
pub fn checkpoint(control: &mut WorkControl) -> (r: bool)
    ensures
        r == !final(control).is_stopped(),
        control_kept(*old(control), *final(control)),
{
    if control.stopped() {
        return false;
    }
    control.advance(TopologyPhase::RoleReconciliation);
    true
}

/// The classification a page starts reconciliation with: a page whose
/// contents allocation withheld keeps its stale claims only as unresolved
/// observations, with no role.
pub open spec fn starting_role(page: PageEntity) -> PageRole {
    if page.detail.allocation_role is Some { PageRole::Unknown } else { page.classification.role }
}

pub open spec fn starting_claims(page: PageEntity) -> Seq<RoleClaim> {
    if page.detail.allocation_role is Some {
        page.classification.claims@.map_values(|c: RoleClaim| RoleClaim { state: RelationshipState::Unresolved, ..c })
    } else {
        page.classification.claims@
    }
}

/// The role a relationship claims for its target.
pub open spec fn relationship_role(kind: RelationshipKind) -> PageRole {
    match kind {
        RelationshipKind::BtreeChild => PageRole::Btree,
        RelationshipKind::Overflow => PageRole::Overflow,
        RelationshipKind::FreelistTrunk => PageRole::FreelistTrunk,
        RelationshipKind::FreelistLeaf => PageRole::FreelistLeaf,
    }
}

pub open spec fn relationship_claim(c: RelationshipClaim) -> RoleClaim {
    RoleClaim {
        role: relationship_role(c.kind),
        source: RoleSource::Relationship,
        evidence: c.evidence,
        state: c.state,
        relationship_id: Some(c.id),
        relationship_stop: c.stop_reason,
    }
}

/// The inventory position of the page a claim names.
pub open spec fn claim_position(c: RelationshipClaim) -> Option<int> {
    match c.target {
        Some(p) => if p.page_number >= 1 { Some(p.page_number - 1) } else { None },
        None => None,
    }
}

/// The role claims that `claims` make on the page at `position`, in claim order.
pub open spec fn incoming_claims(claims: Seq<RelationshipClaim>, position: int) -> Seq<RoleClaim>
    decreases claims.len(),
{
    if claims.len() == 0 {
        seq![]
    } else {
        incoming_claims(claims.drop_last(), position) + if claim_position(claims.last()) == Some(position) {
            seq![relationship_claim(claims.last())]
        } else {
            seq![]
        }
    }
}

pub open spec fn named_by_claim(claims: Seq<RelationshipClaim>, position: int) -> bool {
    exists|i: int| 0 <= i < claims.len() && claim_position(#[trigger] claims[i]) == Some(position)
}

/// The inventory position of the page an entry describes.
pub open spec fn entry_position(e: PointerMapEntry) -> Option<int> {
    match e.target {
        EntityIdentity::Page { page_number } => if page_number >= 1 { Some(page_number - 1) } else { None },
        EntityIdentity::Cell { .. } => None,
    }
}

pub open spec fn entry_claim(e: PointerMapEntry) -> RoleClaim {
    RoleClaim {
        role: e.kind.unwrap().spec_role(),
        source: RoleSource::PointerMap,
        evidence: e.evidence,
        state: e.state,
        relationship_id: None,
        relationship_stop: None,
    }
}

/// The role claims that pointer-map entries make on the page at `position`.
pub open spec fn entry_claims(entries: Seq<PointerMapEntry>, position: int) -> Seq<RoleClaim>
    decreases entries.len(),
{
    if entries.len() == 0 {
        seq![]
    } else {
        let e = entries.last();
        entry_claims(entries.drop_last(), position) + if entry_position(e) == Some(position) && e.kind is Some {
            seq![entry_claim(e)]
        } else {
            seq![]
        }
    }
}

pub open spec fn map_claims(pages: Seq<PointerMapPage>, position: int) -> Seq<RoleClaim>
    decreases pages.len(),
{
    if pages.len() == 0 {
        seq![]
    } else {
        map_claims(pages.drop_last(), position) + entry_claims(pages.last().entries@, position)
    }
}

pub open spec fn named_by_entries(entries: Seq<PointerMapEntry>, position: int) -> bool {
    exists|q: int| 0 <= q < entries.len() && entry_position(#[trigger] entries[q]) == Some(position)
}

pub open spec fn named_by_map(pages: Seq<PointerMapPage>, position: int) -> bool {
    exists|p: int| 0 <= p < pages.len() && named_by_entries(#[trigger] pages[p].entries@, position)
}

/// `c` carries `role`, `claims` and the reference mark, and is not yet reconciled.
pub open spec fn classified(c: PageClassification, role: PageRole, claims: Seq<RoleClaim>, referenced: bool) -> bool {
    &&& c.role == role
    &&& c.claims@ == claims
    &&& c.referenced == referenced
    &&& !c.reconciled
}

/// Copies the classification a page starts reconciliation with.
fn starting_classification(page: &PageEntity) -> (r: PageClassification)
    ensures
        classified(r, starting_role(*page), starting_claims(*page), page.classification.referenced),
{
    let withheld = page.detail.allocation_role.is_some();
    let mut claims: Vec<RoleClaim> = Vec::new();
    let source = &page.classification.claims;
    let mut k: usize = 0;
    while k < source.len()
        invariant
            k <= source@.len(),
            source@ == page.classification.claims@,
            withheld == (page.detail.allocation_role is Some),
            claims@ == if withheld {
                source@.subrange(0, k as int).map_values(|c: RoleClaim| RoleClaim { state: RelationshipState::Unresolved, ..c })
            } else {
                source@.subrange(0, k as int)
            },
        decreases source@.len() - k,
    {
        let claim = source[k];
        if withheld {
            claims.push(RoleClaim { state: RelationshipState::Unresolved, ..claim });
        } else {
            claims.push(claim);
        }
        proof {
            let f = |c: RoleClaim| RoleClaim { state: RelationshipState::Unresolved, ..c };
            assert(source@.subrange(0, k + 1) =~= source@.subrange(0, k as int).push(claim));
            assert(source@.subrange(0, k + 1).map_values(f) =~= source@.subrange(0, k as int).map_values(f).push(f(claim)));
        }
        k = k + 1;
    }
    assert(source@.subrange(0, source@.len() as int) =~= source@);
    PageClassification {
        role: if withheld { PageRole::Unknown } else { page.classification.role },
        claims,
        referenced: page.classification.referenced,
        reconciled: false,
    }
}

/// Starts the classification of every inventoried page; `None` when a stop
/// ends the work.
pub fn starting_classifications(pages: &Vec<PageEntity>, control: &mut WorkControl) -> (r: Option<Vec<PageClassification>>)
    ensures
        control_kept(*old(control), *final(control)),
        r is None ==> final(control).is_stopped(),
        r matches Some(v) ==> v@.len() == pages@.len() && forall|n: int| 0 <= n < pages@.len()
            ==> classified(#[trigger] v@[n], starting_role(pages@[n]), starting_claims(pages@[n]), pages@[n].classification.referenced),
{
    let mut result: Vec<PageClassification> = Vec::new();
    let mut n: usize = 0;
    while n < pages.len()
        invariant
            n <= pages@.len(),
            result@.len() == n,
            forall|m: int| 0 <= m < n ==> classified(#[trigger] result@[m], starting_role(pages@[m]), starting_claims(pages@[m]), pages@[m].classification.referenced),
            control_kept(*old(control), *control),
        decreases pages@.len() - n,
    {
        if !checkpoint(control) {
            return None;
        }
        result.push(starting_classification(&pages[n]));
        n = n + 1;
    }
    Some(result)
}

/// Adds the role claim of every relationship to the page it names, and marks
/// the page referenced. Returns false when a stop ends the work.
pub fn add_relationship_claims(classes: &mut Vec<PageClassification>, claims: &Vec<RelationshipClaim>, control: &mut WorkControl) -> (r: bool)
    ensures
        control_kept(*old(control), *final(control)),
        !r ==> final(control).is_stopped(),
        final(classes)@.len() == old(classes)@.len(),
        r ==> forall|n: int| 0 <= n < old(classes)@.len() ==> classified(
            #[trigger] final(classes)@[n],
            old(classes)@[n].role,
            old(classes)@[n].claims@ + incoming_claims(claims@, n),
            old(classes)@[n].referenced || named_by_claim(claims@, n),
        ) || old(classes)@[n].reconciled,
{
    let mut i: usize = 0;
    while i < claims.len()
        invariant
            i <= claims@.len(),
            classes@.len() == old(classes)@.len(),
            forall|n: int| 0 <= n < old(classes)@.len() ==> {
                &&& (#[trigger] classes@[n]).role == old(classes)@[n].role
                &&& classes@[n].claims@ == old(classes)@[n].claims@ + incoming_claims(claims@.subrange(0, i as int), n)
                &&& classes@[n].referenced == (old(classes)@[n].referenced || named_by_claim(claims@.subrange(0, i as int), n))
                &&& classes@[n].reconciled == old(classes)@[n].reconciled
            },
            control_kept(*old(control), *control),
        decreases claims@.len() - i,
    {
        if !checkpoint(control) {
            return false;
        }
        let claim = claims[i];
        let ghost before = classes@;
        let ghost part = claims@.subrange(0, i as int);
        let ghost next = claims@.subrange(0, i + 1);
        assert(next.drop_last() =~= part);
        assert(next.last() == claim);
        if let Some(target) = claim.target {
            if target.page_number >= 1 && ((target.page_number - 1) as usize) < classes.len() {
                let n = (target.page_number - 1) as usize;
                classes[n].referenced = true;
                let role = match claim.kind {
                    RelationshipKind::BtreeChild => PageRole::Btree,
                    RelationshipKind::Overflow => PageRole::Overflow,
                    RelationshipKind::FreelistTrunk => PageRole::FreelistTrunk,
                    RelationshipKind::FreelistLeaf => PageRole::FreelistLeaf,
                };
                classes[n].claims.push(RoleClaim {
                    role,
                    source: RoleSource::Relationship,
                    evidence: claim.evidence,
                    state: claim.state,
                    relationship_id: Some(claim.id),
                    relationship_stop: claim.stop_reason,
                });
                proof {
                    assert forall|m: int| 0 <= m < old(classes)@.len() implies {
                        &&& (#[trigger] classes@[m]).role == old(classes)@[m].role
                        &&& classes@[m].claims@ == old(classes)@[m].claims@ + incoming_claims(next, m)
                        &&& classes@[m].referenced == (old(classes)@[m].referenced || named_by_claim(next, m))
                        &&& classes@[m].reconciled == old(classes)@[m].reconciled
                    } by {
                        if m == n {
                            assert(classes@[m].claims@ =~= before[m].claims@.push(relationship_claim(claim)));
                            assert(old(classes)@[m].claims@ + incoming_claims(next, m) =~= (old(classes)@[m].claims@ + incoming_claims(part, m)).push(relationship_claim(claim)));
                            assert(claim_position(next[i as int]) == Some(m));
                        } else {
                            assert(classes@[m] == before[m]);
                            assert(incoming_claims(next, m) =~= incoming_claims(part, m) + Seq::<RoleClaim>::empty());
                            if named_by_claim(next, m) {
                                let w = choose|w: int| 0 <= w < next.len() && claim_position(#[trigger] next[w]) == Some(m);
                                assert(w < i);
                                assert(part[w] == next[w]);
                            }
                            if named_by_claim(part, m) {
                                let w = choose|w: int| 0 <= w < part.len() && claim_position(#[trigger] part[w]) == Some(m);
                                assert(next[w] == part[w]);
                            }
                        }
                    }
                }
                i = i + 1;
                continue;
            }
        }
        proof {
            assert forall|m: int| 0 <= m < old(classes)@.len() implies {
                &&& (#[trigger] classes@[m]).role == old(classes)@[m].role
                &&& classes@[m].claims@ == old(classes)@[m].claims@ + incoming_claims(next, m)
                &&& classes@[m].referenced == (old(classes)@[m].referenced || named_by_claim(next, m))
                &&& classes@[m].reconciled == old(classes)@[m].reconciled
            } by {
                assert(claim_position(claim) != Some(m));
                assert(incoming_claims(next, m) =~= incoming_claims(part, m) + Seq::<RoleClaim>::empty());
                if named_by_claim(next, m) {
                    let w = choose|w: int| 0 <= w < next.len() && claim_position(#[trigger] next[w]) == Some(m);
                    assert(w < i);
                    assert(part[w] == next[w]);
                }
                if named_by_claim(part, m) {
                    let w = choose|w: int| 0 <= w < part.len() && claim_position(#[trigger] part[w]) == Some(m);
                    assert(next[w] == part[w]);
                }
            }
        }
        i = i + 1;
    }
    assert(claims@.subrange(0, i as int) =~= claims@);
    true
}

/// A pointer-map finding reported with `evidence`.
pub open spec fn map_note(code: PointerMapDiagnostic, evidence: Seq<PhysicalEvidence>) -> DiagnosticView {
    DiagnosticView {
        code: DiagnosticCode::PointerMap(code),
        severity: DiagnosticSeverity::Error,
        evidence,
        affected_relationships: seq![],
        containment: Containment::RelationshipExcluded,
    }
}

/// Each code of `codes` reported with `evidence`.
pub open spec fn notes_with(codes: Seq<PointerMapDiagnostic>, evidence: Seq<PhysicalEvidence>) -> Seq<DiagnosticView> {
    codes.map_values(|code: PointerMapDiagnostic| map_note(code, evidence))
}

/// The evidence of an entry finding: the entry, and for a root above the
/// largest root page, the header field too.
pub open spec fn entry_evidence(code: PointerMapDiagnostic, e: PointerMapEntry, largest_root: PhysicalEvidence) -> Seq<PhysicalEvidence> {
    if code == PointerMapDiagnostic::RootAboveLargestRoot {
        seq![e.evidence, largest_root]
    } else {
        seq![e.evidence]
    }
}

pub open spec fn entry_notes(e: PointerMapEntry, largest_root: PhysicalEvidence) -> Seq<DiagnosticView> {
    e.diagnostics@.map_values(|code: PointerMapDiagnostic| map_note(code, entry_evidence(code, e, largest_root)))
}

/// The findings of the entries that describe pages, in order.
pub open spec fn entries_notes(entries: Seq<PointerMapEntry>, largest_root: PhysicalEvidence) -> Seq<DiagnosticView>
    decreases entries.len(),
{
    if entries.len() == 0 {
        seq![]
    } else {
        entries_notes(entries.drop_last(), largest_root) + if entries.last().target is Page {
            entry_notes(entries.last(), largest_root)
        } else {
            seq![]
        }
    }
}

/// The extent of map page `number` that the file holds.
pub open spec fn map_extent(g: DatabaseGeometry, number: u32) -> PhysicalEvidence {
    let start = (number - 1) * g.page_size;
    let left = if g.file_length > start { g.file_length - start } else { 0 };
    spec_evidence(g, number, 0, (if left < g.usable_size { left } else { g.usable_size as int }) as u32, ValidationRule::PointerMapExtent)
}

pub open spec fn page_notes(g: DatabaseGeometry, page: PointerMapPage, largest_root: PhysicalEvidence) -> Seq<DiagnosticView> {
    notes_with(page.diagnostics@, seq![map_extent(g, page.page.page_number)]) + entries_notes(page.entries@, largest_root)
}

pub open spec fn pages_notes(g: DatabaseGeometry, pages: Seq<PointerMapPage>, largest_root: PhysicalEvidence) -> Seq<DiagnosticView>
    decreases pages.len(),
{
    if pages.len() == 0 {
        seq![]
    } else {
        pages_notes(g, pages.drop_last(), largest_root) + page_notes(g, pages.last(), largest_root)
    }
}

/// Everything the pointer map reports: header findings, then page and entry
/// findings in file order.
pub open spec fn pointer_map_notes(g: DatabaseGeometry, maps: PointerMapEvidence) -> Seq<DiagnosticView> {
    notes_with(maps.diagnostics@, seq![maps.largest_root.evidence, maps.incremental_vacuum.evidence])
        + pages_notes(g, maps.pages@, maps.largest_root.evidence)
}

/// Reports each code of `codes` with `evidence`.
fn push_notes(diagnostics: &mut Vec<StructuralDiagnostic>, codes: &Vec<PointerMapDiagnostic>, evidence: &Vec<PhysicalEvidence>)
    ensures
        final(diagnostics)@.len() == old(diagnostics)@.len() + codes@.len(),
        forall|k: int| 0 <= k < old(diagnostics)@.len() ==> #[trigger] final(diagnostics)@[k] == old(diagnostics)@[k],
        forall|k: int| 0 <= k < codes@.len() ==> (#[trigger] final(diagnostics)@[old(diagnostics)@.len() + k])@ == map_note(codes@[k], evidence@),
{
    let mut k: usize = 0;
    while k < codes.len()
        invariant
            k <= codes@.len(),
            diagnostics@.len() == old(diagnostics)@.len() + k,
            forall|j: int| 0 <= j < old(diagnostics)@.len() ==> #[trigger] diagnostics@[j] == old(diagnostics)@[j],
            forall|j: int| 0 <= j < k ==> (#[trigger] diagnostics@[old(diagnostics)@.len() + j])@ == map_note(codes@[j], evidence@),
        decreases codes@.len() - k,
    {
        let copy = crate::pointer_map::copy_evidence(evidence);
        let note = StructuralDiagnostic {
            code: DiagnosticCode::PointerMap(codes[k]),
            severity: DiagnosticSeverity::Error,
            evidence: copy,
            affected_relationships: Vec::new(),
            containment: Containment::RelationshipExcluded,
        };
        assert(note@.affected_relationships =~= Seq::<ClaimId>::empty());
        diagnostics.push(note);
        k = k + 1;
    }
}

/// `after` is `before` with the reports `notes` appended.
pub open spec fn reported(before: Seq<StructuralDiagnostic>, after: Seq<StructuralDiagnostic>, notes: Seq<DiagnosticView>) -> bool {
    &&& after.len() == before.len() + notes.len()
    &&& forall|k: int| 0 <= k < before.len() ==> #[trigger] after[k] == before[k]
    &&& forall|k: int| 0 <= k < notes.len() ==> (#[trigger] after[before.len() + k])@ == notes[k]
}

proof fn lemma_reported_chain(a: Seq<StructuralDiagnostic>, b: Seq<StructuralDiagnostic>, c: Seq<StructuralDiagnostic>, x: Seq<DiagnosticView>, y: Seq<DiagnosticView>)
    requires
        reported(a, b, x),
        reported(b, c, y),
    ensures
        reported(a, c, x + y),
{
    assert forall|k: int| 0 <= k < (x + y).len() implies (#[trigger] c[a.len() + k])@ == (x + y)[k] by {
        if k < x.len() {
            assert(c[a.len() + k] == b[a.len() + k]);
        } else {
            assert(c[b.len() + (k - x.len())]@ == y[k - x.len()]);
        }
    }
}

proof fn lemma_reported_none(a: Seq<StructuralDiagnostic>)
    ensures
        reported(a, a, seq![]),
{
}

/// Reports the findings of one entry.
fn push_entry_notes(diagnostics: &mut Vec<StructuralDiagnostic>, entry: &PointerMapEntry, largest_root: PhysicalEvidence)
    ensures
        reported(old(diagnostics)@, final(diagnostics)@, entry_notes(*entry, largest_root)),
{
    let mut k: usize = 0;
    while k < entry.diagnostics.len()
        invariant
            k <= entry.diagnostics@.len(),
            reported(old(diagnostics)@, diagnostics@, entry_notes(*entry, largest_root).subrange(0, k as int)),
        decreases entry.diagnostics@.len() - k,
    {
        let code = entry.diagnostics[k];
        let mut evidence: Vec<PhysicalEvidence> = Vec::new();
        evidence.push(entry.evidence);
        if code == PointerMapDiagnostic::RootAboveLargestRoot {
            evidence.push(largest_root);
        }
        let note = StructuralDiagnostic {
            code: DiagnosticCode::PointerMap(code),
            severity: DiagnosticSeverity::Error,
            evidence,
            affected_relationships: Vec::new(),
            containment: Containment::RelationshipExcluded,
        };
        assert(note@.evidence =~= entry_evidence(code, *entry, largest_root));
        assert(note@.affected_relationships =~= Seq::<ClaimId>::empty());
        assert(note@ == map_note(code, entry_evidence(code, *entry, largest_root)));
        let ghost before = diagnostics@;
        diagnostics.push(note);
        proof {
            let notes = entry_notes(*entry, largest_root);
            assert(notes.subrange(0, k + 1) =~= notes.subrange(0, k as int).push(notes[k as int]));
            assert(diagnostics@[old(diagnostics)@.len() + k]@ == notes[k as int]);
            assert forall|j: int| 0 <= j < k + 1 implies (#[trigger] diagnostics@[old(diagnostics)@.len() + j])@ == notes.subrange(0, k + 1)[j] by {
                if j < k {
                    assert(diagnostics@[old(diagnostics)@.len() + j] == before[old(diagnostics)@.len() + j]);
                }
            }
        }
        k = k + 1;
    }
    assert(entry_notes(*entry, largest_root).subrange(0, k as int) =~= entry_notes(*entry, largest_root));
}

/// How a page's classification grows with the claims of pointer-map entries.
pub open spec fn grown(before: PageClassification, after: PageClassification, claims: Seq<RoleClaim>, named: bool) -> bool {
    &&& after.role == before.role
    &&& after.claims@ == before.claims@ + claims
    &&& after.referenced == (before.referenced || named)
    &&& after.reconciled == before.reconciled
}

/// Adds the claim of one entry to the page it describes, and reports its findings.
fn add_entry(classes: &mut Vec<PageClassification>, entry: &PointerMapEntry, largest_root: PhysicalEvidence, diagnostics: &mut Vec<StructuralDiagnostic>)
    ensures
        reported(old(diagnostics)@, final(diagnostics)@, if entry.target is Page { entry_notes(*entry, largest_root) } else { seq![] }),
        final(classes)@.len() == old(classes)@.len(),
        forall|n: int| 0 <= n < old(classes)@.len() ==> grown(
            #[trigger] old(classes)@[n],
            final(classes)@[n],
            if entry_position(*entry) == Some(n) && entry.kind is Some { seq![entry_claim(*entry)] } else { seq![] },
            entry_position(*entry) == Some(n),
        ),
{
    let page_number = match entry.target {
        EntityIdentity::Page { page_number } => page_number,
        EntityIdentity::Cell { .. } => {
            proof { lemma_reported_none(diagnostics@); }
            assert forall|n: int| 0 <= n < old(classes)@.len() implies grown(#[trigger] old(classes)@[n], classes@[n], seq![], false) by {
                assert(classes@[n].claims@ =~= old(classes)@[n].claims@ + Seq::<RoleClaim>::empty());
            }
            return;
        },
    };
    push_entry_notes(diagnostics, entry, largest_root);
    if page_number >= 1 && ((page_number - 1) as usize) < classes.len() {
        let n = (page_number - 1) as usize;
        let ghost before = classes@;
        classes[n].referenced = true;
        if let Some(kind) = entry.kind {
            classes[n].claims.push(RoleClaim {
                role: kind.role(),
                source: RoleSource::PointerMap,
                evidence: entry.evidence,
                state: entry.state,
                relationship_id: None,
                relationship_stop: None,
            });
        }
        assert forall|m: int| 0 <= m < old(classes)@.len() implies grown(
            #[trigger] old(classes)@[m],
            classes@[m],
            if entry_position(*entry) == Some(m) && entry.kind is Some { seq![entry_claim(*entry)] } else { seq![] },
            entry_position(*entry) == Some(m),
        ) by {
            if m == n {
                if entry.kind is Some {
                    assert(classes@[m].claims@ =~= old(classes)@[m].claims@ + seq![entry_claim(*entry)]);
                } else {
                    assert(classes@[m].claims@ =~= old(classes)@[m].claims@ + Seq::<RoleClaim>::empty());
                }
            } else {
                assert(classes@[m] == before[m]);
                assert(classes@[m].claims@ =~= old(classes)@[m].claims@ + Seq::<RoleClaim>::empty());
            }
        }
    } else {
        assert forall|m: int| 0 <= m < old(classes)@.len() implies grown(#[trigger] old(classes)@[m], classes@[m], seq![], false) by {
            assert(classes@[m].claims@ =~= old(classes)@[m].claims@ + Seq::<RoleClaim>::empty());
        }
    }
}

/// Adds the claims of the entries of one map page and reports their findings;
/// false when a stop ends the work.
fn add_entries(classes: &mut Vec<PageClassification>, page: &PointerMapPage, largest_root: PhysicalEvidence, diagnostics: &mut Vec<StructuralDiagnostic>, control: &mut WorkControl) -> (r: bool)
    ensures
        control_kept(*old(control), *final(control)),
        !r ==> final(control).is_stopped(),
        final(classes)@.len() == old(classes)@.len(),
        r ==> reported(old(diagnostics)@, final(diagnostics)@, entries_notes(page.entries@, largest_root)),
        r ==> forall|n: int| 0 <= n < old(classes)@.len() ==> grown(
            #[trigger] old(classes)@[n],
            final(classes)@[n],
            entry_claims(page.entries@, n),
            named_by_entries(page.entries@, n),
        ),
{
    let entries = &page.entries;
    let mut j: usize = 0;
    proof { lemma_reported_none(diagnostics@); }
    while j < entries.len()
        invariant
            j <= entries@.len(),
            entries@ == page.entries@,
            control_kept(*old(control), *control),
            classes@.len() == old(classes)@.len(),
            reported(old(diagnostics)@, diagnostics@, entries_notes(entries@.subrange(0, j as int), largest_root)),
            forall|n: int| 0 <= n < old(classes)@.len() ==> grown(
                #[trigger] old(classes)@[n],
                classes@[n],
                entry_claims(entries@.subrange(0, j as int), n),
                named_by_entries(entries@.subrange(0, j as int), n),
            ),
        decreases entries@.len() - j,
    {
        if !checkpoint(control) {
            return false;
        }
        let ghost part = entries@.subrange(0, j as int);
        let ghost next = entries@.subrange(0, j + 1);
        let ghost classes_before = classes@;
        let ghost diagnostics_before = diagnostics@;
        assert(next.drop_last() =~= part);
        assert(next.last() == entries@[j as int]);
        add_entry(classes, &entries[j], largest_root, diagnostics);
        proof {
            lemma_reported_chain(old(diagnostics)@, diagnostics_before, diagnostics@, entries_notes(part, largest_root),
                if entries@[j as int].target is Page { entry_notes(entries@[j as int], largest_root) } else { seq![] });
            assert(entries_notes(next, largest_root) == entries_notes(part, largest_root)
                + if entries@[j as int].target is Page { entry_notes(entries@[j as int], largest_root) } else { seq![] });
            assert forall|n: int| 0 <= n < old(classes)@.len() implies grown(
                #[trigger] old(classes)@[n],
                classes@[n],
                entry_claims(next, n),
                named_by_entries(next, n),
            ) by {
                let e = entries@[j as int];
                let extra = if entry_position(e) == Some(n) && e.kind is Some { seq![entry_claim(e)] } else { seq![] };
                assert(grown(classes_before[n], classes@[n], extra, entry_position(e) == Some(n)));
                assert(entry_claims(next, n) == entry_claims(part, n) + extra);
                assert(classes@[n].claims@ =~= old(classes)@[n].claims@ + entry_claims(next, n));
                if named_by_entries(next, n) {
                    let w = choose|w: int| 0 <= w < next.len() && entry_position(#[trigger] next[w]) == Some(n);
                    if w < j {
                        assert(part[w] == next[w]);
                    }
                }
                if named_by_entries(part, n) {
                    let w = choose|w: int| 0 <= w < part.len() && entry_position(#[trigger] part[w]) == Some(n);
                    assert(next[w] == part[w]);
                }
                if entry_position(e) == Some(n) {
                    assert(next[j as int] == e);
                }
            }
        }
        j = j + 1;
    }
    assert(entries@.subrange(0, j as int) =~= entries@);
    true
}

proof fn lemma_map_step(part: Seq<PointerMapPage>, next: Seq<PointerMapPage>, page: PointerMapPage, n: int)
    requires
        next == part.push(page),
    ensures
        map_claims(next, n) == map_claims(part, n) + entry_claims(page.entries@, n),
        named_by_map(next, n) == (named_by_map(part, n) || named_by_entries(page.entries@, n)),
{
    assert(next.drop_last() =~= part);
    if named_by_map(next, n) {
        let w = choose|w: int| 0 <= w < next.len() && named_by_entries(#[trigger] next[w].entries@, n);
        if w < part.len() {
            assert(part[w] == next[w]);
        }
    }
    if named_by_map(part, n) {
        let w = choose|w: int| 0 <= w < part.len() && named_by_entries(#[trigger] part[w].entries@, n);
        assert(next[w] == part[w]);
    }
    if named_by_entries(page.entries@, n) {
        assert(next[part.len() as int] == page);
    }
}

/// Adds the claims of pointer-map entries to the pages they describe and
/// reports every pointer-map finding; false when a stop ends the work.
pub fn collect_pointer_map_claims(
    geometry: &DatabaseGeometry,
    classes: &mut Vec<PageClassification>,
    maps: &PointerMapEvidence,
    diagnostics: &mut Vec<StructuralDiagnostic>,
    control: &mut WorkControl,
) -> (r: bool)
    requires
        geometry_wf(*geometry),
        forall|p: int| 0 <= p < maps.pages@.len() ==> (#[trigger] maps.pages@[p]).page.page_number >= 1,
    ensures
        control_kept(*old(control), *final(control)),
        !r ==> final(control).is_stopped(),
        final(classes)@.len() == old(classes)@.len(),
        r ==> reported(old(diagnostics)@, final(diagnostics)@, pointer_map_notes(*geometry, *maps)),
        r ==> forall|n: int| 0 <= n < old(classes)@.len() ==> grown(
            #[trigger] old(classes)@[n],
            final(classes)@[n],
            map_claims(maps.pages@, n),
            named_by_map(maps.pages@, n),
        ),
{
    let mut header_evidence: Vec<PhysicalEvidence> = Vec::new();
    header_evidence.push(maps.largest_root.evidence);
    header_evidence.push(maps.incremental_vacuum.evidence);
    assert(header_evidence@ =~= seq![maps.largest_root.evidence, maps.incremental_vacuum.evidence]);
    push_notes(diagnostics, &maps.diagnostics, &header_evidence);
    let ghost header_notes = notes_with(maps.diagnostics@, seq![maps.largest_root.evidence, maps.incremental_vacuum.evidence]);
    assert(reported(old(diagnostics)@, diagnostics@, header_notes));
    let largest_root = maps.largest_root.evidence;
    let pages = &maps.pages;
    let mut i: usize = 0;
    assert forall|n: int| 0 <= n < old(classes)@.len() implies grown(#[trigger] old(classes)@[n], classes@[n], map_claims(pages@.subrange(0, 0), n), named_by_map(pages@.subrange(0, 0), n)) by {
        assert(map_claims(pages@.subrange(0, 0), n) =~= Seq::<RoleClaim>::empty());
        assert(classes@[n].claims@ =~= old(classes)@[n].claims@ + Seq::<RoleClaim>::empty());
    }
    assert(header_notes + pages_notes(*geometry, pages@.subrange(0, 0), largest_root) =~= header_notes);
    while i < pages.len()
        invariant
            geometry_wf(*geometry),
            i <= pages@.len(),
            pages@ == maps.pages@,
            largest_root == maps.largest_root.evidence,
            header_notes == notes_with(maps.diagnostics@, seq![maps.largest_root.evidence, maps.incremental_vacuum.evidence]),
            forall|p: int| 0 <= p < pages@.len() ==> (#[trigger] pages@[p]).page.page_number >= 1,
            control_kept(*old(control), *control),
            classes@.len() == old(classes)@.len(),
            reported(old(diagnostics)@, diagnostics@, header_notes + pages_notes(*geometry, pages@.subrange(0, i as int), largest_root)),
            forall|n: int| 0 <= n < old(classes)@.len() ==> grown(
                #[trigger] old(classes)@[n],
                classes@[n],
                map_claims(pages@.subrange(0, i as int), n),
                named_by_map(pages@.subrange(0, i as int), n),
            ),
        decreases pages@.len() - i,
    {
        if !checkpoint(control) {
            return false;
        }
        let page = &pages[i];
        let ghost part = pages@.subrange(0, i as int);
        let ghost next = pages@.subrange(0, i + 1);
        assert(next.drop_last() =~= part);
        assert(next.last() == *page);
        let number = page.page.page_number;
        let prev: u32 = number - 1;
        proof {
            assert(prev * geometry.page_size <= 0xffff_ffffu64 * 65536) by (nonlinear_arith)
                requires prev <= 0xffff_ffffu32, geometry.page_size <= 65536;
        }
        let start = prev as u64 * geometry.page_size as u64;
        let left = if geometry.file_length > start { geometry.file_length - start } else { 0 };
        let length = if left < geometry.usable_size as u64 { left as u32 } else { geometry.usable_size };
        let extent = evidence(geometry, number, 0, length, ValidationRule::PointerMapExtent);
        assert(extent == map_extent(*geometry, number));
        let mut extent_evidence: Vec<PhysicalEvidence> = Vec::new();
        extent_evidence.push(extent);
        assert(extent_evidence@ =~= seq![map_extent(*geometry, number)]);
        let ghost d0 = diagnostics@;
        push_notes(diagnostics, &page.diagnostics, &extent_evidence);
        let ghost d1 = diagnostics@;
        let ghost classes_before = classes@;
        if !add_entries(classes, page, largest_root, diagnostics, control) {
            return false;
        }
        proof {
            let page_part = notes_with(page.diagnostics@, seq![map_extent(*geometry, number)]);
            assert(reported(d0, d1, page_part));
            lemma_reported_chain(d0, d1, diagnostics@, page_part, entries_notes(page.entries@, largest_root));
            lemma_reported_chain(old(diagnostics)@, d0, diagnostics@, header_notes + pages_notes(*geometry, part, largest_root), page_notes(*geometry, *page, largest_root));
            assert(pages_notes(*geometry, next, largest_root) == pages_notes(*geometry, part, largest_root) + page_notes(*geometry, *page, largest_root));
            assert(header_notes + pages_notes(*geometry, next, largest_root) =~= (header_notes + pages_notes(*geometry, part, largest_root)) + page_notes(*geometry, *page, largest_root));
            assert(next =~= part.push(*page));
            assert forall|n: int| 0 <= n < old(classes)@.len() implies grown(
                #[trigger] old(classes)@[n],
                classes@[n],
                map_claims(next, n),
                named_by_map(next, n),
            ) by {
                lemma_map_step(part, next, *page, n);
                assert(grown(old(classes)@[n], classes_before[n], map_claims(part, n), named_by_map(part, n)));
                assert(grown(classes_before[n], classes@[n], entry_claims(page.entries@, n), named_by_entries(page.entries@, n)));
                assert(classes@[n].claims@ =~= old(classes)@[n].claims@ + map_claims(next, n));
            }
        }
        i = i + 1;
    }
    assert(pages@.subrange(0, i as int) =~= pages@);
    true
}

/// The claims a page carries into resolution: its own, those of the
/// relationships that name it, and those of the pointer-map entries that
/// describe it.
pub open spec fn collected_claims(page: PageEntity, claims: Seq<RelationshipClaim>, maps: Option<PointerMapEvidence>, n: int) -> Seq<RoleClaim> {
    starting_claims(page) + incoming_claims(claims, n) + match maps {
        Some(m) => map_claims(m.pages@, n),
        None => seq![],
    }
}

pub open spec fn collected_reference(page: PageEntity, claims: Seq<RelationshipClaim>, maps: Option<PointerMapEvidence>, n: int) -> bool {
    page.classification.referenced || named_by_claim(claims, n) || match maps {
        Some(m) => named_by_map(m.pages@, n),
        None => false,
    }
}

/// Gathers every role claim on every inventoried page: the page's own, the
/// relationships that name it, and the pointer-map entries that describe it;
/// pointer-map findings are reported. `None` when a stop ends the work.
pub fn collect_claims(geometry: &DatabaseGeometry, pages: &Vec<PageEntity>, topology: &mut Topology, control: &mut WorkControl) -> (r: Option<Vec<PageClassification>>)
    requires
        geometry_wf(*geometry),
        old(topology).pointer_map matches Some(m) ==> forall|p: int| 0 <= p < m.pages@.len() ==> (#[trigger] m.pages@[p]).page.page_number >= 1,
    ensures
        control_kept(*old(control), *final(control)),
        r is None ==> final(control).is_stopped(),
        final(topology).claims@ == old(topology).claims@,
        final(topology).relationships@ == old(topology).relationships@,
        final(topology).traversals@ == old(topology).traversals@,
        final(topology).freelist == old(topology).freelist,
        final(topology).coverage == old(topology).coverage,
        final(topology).pointer_map == old(topology).pointer_map,
        final(topology).classifications@ == old(topology).classifications@,
        r is Some ==> reported(old(topology).diagnostics@, final(topology).diagnostics@, match old(topology).pointer_map {
            Some(m) => pointer_map_notes(*geometry, m),
            None => seq![],
        }),
        r matches Some(v) ==> v@.len() == pages@.len() && forall|n: int| 0 <= n < pages@.len() ==> classified(
            #[trigger] v@[n],
            starting_role(pages@[n]),
            collected_claims(pages@[n], old(topology).claims@, old(topology).pointer_map, n),
            collected_reference(pages@[n], old(topology).claims@, old(topology).pointer_map, n),
        ),
{
    let mut classes = match starting_classifications(pages, control) {
        Some(classes) => classes,
        None => return None,
    };
    let ghost start = classes@;
    if !add_relationship_claims(&mut classes, &topology.claims, control) {
        return None;
    }
    let ghost middle = classes@;
    match &topology.pointer_map {
        Some(maps) => {
            if !collect_pointer_map_claims(geometry, &mut classes, maps, &mut topology.diagnostics, control) {
                return None;
            }
        },
        None => {
            proof { lemma_reported_none(topology.diagnostics@); }
        },
    }
    proof {
        assert forall|n: int| 0 <= n < pages@.len() implies classified(
            #[trigger] classes@[n],
            starting_role(pages@[n]),
            collected_claims(pages@[n], old(topology).claims@, old(topology).pointer_map, n),
            collected_reference(pages@[n], old(topology).claims@, old(topology).pointer_map, n),
        ) by {
            assert(classified(start[n], starting_role(pages@[n]), starting_claims(pages@[n]), pages@[n].classification.referenced));
            assert(classified(middle[n], starting_role(pages@[n]), starting_claims(pages@[n]) + incoming_claims(old(topology).claims@, n),
                pages@[n].classification.referenced || named_by_claim(old(topology).claims@, n)));
            match old(topology).pointer_map {
                Some(m) => {
                    assert(grown(middle[n], classes@[n], map_claims(m.pages@, n), named_by_map(m.pages@, n)));
                    assert(classes@[n].claims@ =~= collected_claims(pages@[n], old(topology).claims@, old(topology).pointer_map, n));
                },
                None => {
                    assert(classes@[n] == middle[n]);
                    assert(classes@[n].claims@ =~= collected_claims(pages@[n], old(topology).claims@, old(topology).pointer_map, n));
                },
            }
        }
    }
    Some(classes)
}

/// Whether a claim in conflict marks its page conflicting: a claim stopped
/// only by a cycle does not.
pub open spec fn marks_conflict(c: RoleClaim) -> bool {
    c.state == RelationshipState::Conflicting && c.relationship_stop != Some(TraversalStopReason::Cycle)
}

/// The role that a page's claims support, taken in order: credible claims
/// merge their roles, and a claim in conflict makes the page conflicting.
pub open spec fn resolve_role(claims: Seq<RoleClaim>) -> PageRole
    decreases claims.len(),
{
    if claims.len() == 0 {
        PageRole::Unknown
    } else {
        let c = claims.last();
        let before = resolve_role(claims.drop_last());
        let marked = if marks_conflict(c) { PageRole::Conflicting } else { before };
        if spec_credible(c.state) { spec_merge(marked, c.role) } else { marked }
    }
}

/// The evidence of a role conflict: the credible claims of the page.
pub open spec fn conflict_evidence(claims: Seq<RoleClaim>) -> Seq<PhysicalEvidence>
    decreases claims.len(),
{
    if claims.len() == 0 {
        seq![]
    } else {
        conflict_evidence(claims.drop_last()) + if spec_credible(claims.last().state) { seq![claims.last().evidence] } else { seq![] }
    }
}

/// The relationships a role conflict affects.
pub open spec fn conflict_relationships(claims: Seq<RoleClaim>) -> Seq<ClaimId>
    decreases claims.len(),
{
    if claims.len() == 0 {
        seq![]
    } else {
        conflict_relationships(claims.drop_last()) + match claims.last().relationship_id {
            Some(id) => seq![id],
            None => seq![],
        }
    }
}

pub open spec fn conflict_note(claims: Seq<RoleClaim>) -> DiagnosticView {
    DiagnosticView {
        code: DiagnosticCode::PageRoleConflict,
        severity: DiagnosticSeverity::Error,
        evidence: conflict_evidence(claims),
        affected_relationships: conflict_relationships(claims),
        containment: Containment::RelationshipExcluded,
    }
}

/// The role conflicts of `classes`, in page order.
pub open spec fn conflict_notes(classes: Seq<PageClassification>) -> Seq<DiagnosticView>
    decreases classes.len(),
{
    if classes.len() == 0 {
        seq![]
    } else {
        let c = classes.last();
        conflict_notes(classes.drop_last()) + if resolve_role(c.claims@) == PageRole::Conflicting {
            seq![conflict_note(c.claims@)]
        } else {
            seq![]
        }
    }
}

/// Resolves the role one page's claims support; false on a stop.
fn resolve_page(class: &mut PageClassification, control: &mut WorkControl) -> (r: bool)
    ensures
        control_kept(*old(control), *final(control)),
        !r ==> final(control).is_stopped(),
        final(class).claims@ == old(class).claims@,
        final(class).referenced == old(class).referenced,
        final(class).reconciled == old(class).reconciled,
        r ==> final(class).role == resolve_role(old(class).claims@),
{
    let mut role = PageRole::Unknown;
    let mut k: usize = 0;
    while k < class.claims.len()
        invariant
            k <= class.claims@.len(),
            class.claims@ == old(class).claims@,
            class.referenced == old(class).referenced,
            class.reconciled == old(class).reconciled,
            role == resolve_role(class.claims@.subrange(0, k as int)),
            control_kept(*old(control), *control),
        decreases class.claims@.len() - k,
    {
        if !checkpoint(control) {
            return false;
        }
        let claim = class.claims[k];
        assert(class.claims@.subrange(0, k + 1).drop_last() =~= class.claims@.subrange(0, k as int));
        if claim.state == RelationshipState::Conflicting && claim.relationship_stop != Some(TraversalStopReason::Cycle) {
            role = PageRole::Conflicting;
        }
        if credible(claim.state) {
            role = merge(role, claim.role);
        }
        k = k + 1;
    }
    assert(class.claims@.subrange(0, k as int) =~= class.claims@);
    class.role = role;
    true
}

/// Reports the role conflict of a page.
fn conflict_report(claims: &Vec<RoleClaim>, control: &mut WorkControl) -> (r: Option<StructuralDiagnostic>)
    ensures
        control_kept(*old(control), *final(control)),
        r is None ==> final(control).is_stopped(),
        r matches Some(d) ==> d@ == conflict_note(claims@),
{
    let mut evidence: Vec<PhysicalEvidence> = Vec::new();
    let mut affected: Vec<ClaimId> = Vec::new();
    let mut k: usize = 0;
    while k < claims.len()
        invariant
            k <= claims@.len(),
            evidence@ == conflict_evidence(claims@.subrange(0, k as int)),
            affected@ == conflict_relationships(claims@.subrange(0, k as int)),
            control_kept(*old(control), *control),
        decreases claims@.len() - k,
    {
        if !checkpoint(control) {
            return None;
        }
        let claim = claims[k];
        let ghost part = claims@.subrange(0, k as int);
        assert(claims@.subrange(0, k + 1).drop_last() =~= part);
        if credible(claim.state) {
            evidence.push(claim.evidence);
        }
        if let Some(id) = claim.relationship_id {
            affected.push(id);
        }
        assert(evidence@ =~= conflict_evidence(claims@.subrange(0, k + 1)));
        assert(affected@ =~= conflict_relationships(claims@.subrange(0, k + 1)));
        k = k + 1;
    }
    assert(claims@.subrange(0, k as int) =~= claims@);
    Some(StructuralDiagnostic {
        code: DiagnosticCode::PageRoleConflict,
        severity: DiagnosticSeverity::Error,
        evidence,
        affected_relationships: affected,
        containment: Containment::RelationshipExcluded,
    })
}

/// Resolves each page's role from its claims and reports every page whose
/// claims conflict; false when a stop ends the work.
pub fn resolve_claims(classes: &mut Vec<PageClassification>, diagnostics: &mut Vec<StructuralDiagnostic>, control: &mut WorkControl) -> (r: bool)
    ensures
        control_kept(*old(control), *final(control)),
        !r ==> final(control).is_stopped(),
        final(classes)@.len() == old(classes)@.len(),
        forall|n: int| 0 <= n < old(classes)@.len() ==> {
            &&& (#[trigger] final(classes)@[n]).claims@ == old(classes)@[n].claims@
            &&& final(classes)@[n].referenced == old(classes)@[n].referenced
            &&& final(classes)@[n].reconciled == old(classes)@[n].reconciled
        },
        r ==> forall|n: int| 0 <= n < old(classes)@.len() ==> (#[trigger] final(classes)@[n]).role == resolve_role(old(classes)@[n].claims@),
        r ==> reported(old(diagnostics)@, final(diagnostics)@, conflict_notes(old(classes)@)),
{
    let mut n: usize = 0;
    proof { lemma_reported_none(diagnostics@); }
    while n < classes.len()
        invariant
            n <= classes@.len(),
            classes@.len() == old(classes)@.len(),
            forall|m: int| 0 <= m < old(classes)@.len() ==> {
                &&& (#[trigger] classes@[m]).claims@ == old(classes)@[m].claims@
                &&& classes@[m].referenced == old(classes)@[m].referenced
                &&& classes@[m].reconciled == old(classes)@[m].reconciled
            },
            forall|m: int| 0 <= m < n ==> (#[trigger] classes@[m]).role == resolve_role(old(classes)@[m].claims@),
            forall|m: int| n <= m < classes@.len() ==> (#[trigger] classes@[m]).role == old(classes)@[m].role,
            reported(old(diagnostics)@, diagnostics@, conflict_notes(old(classes)@.subrange(0, n as int))),
            control_kept(*old(control), *control),
        decreases classes@.len() - n,
    {
        if !checkpoint(control) {
            return false;
        }
        let ghost before = classes@;
        let ghost d0 = diagnostics@;
        if !resolve_page(&mut classes[n], control) {
            return false;
        }
        assert(forall|m: int| 0 <= m < classes@.len() && m != n ==> #[trigger] classes@[m] == before[m]);
        let ghost part = old(classes)@.subrange(0, n as int);
        let ghost next = old(classes)@.subrange(0, n + 1);
        assert(next.drop_last() =~= part);
        assert(next.last() == old(classes)@[n as int]);
        if classes[n].role == PageRole::Conflicting {
            match conflict_report(&classes[n].claims, control) {
                Some(d) => {
                    diagnostics.push(d);
                    proof {
                        assert(reported(d0, diagnostics@, seq![conflict_note(old(classes)@[n as int].claims@)]));
                        lemma_reported_chain(old(diagnostics)@, d0, diagnostics@, conflict_notes(part), seq![conflict_note(old(classes)@[n as int].claims@)]);
                    }
                },
                None => return false,
            }
        } else {
            proof {
                assert(conflict_notes(next) =~= conflict_notes(part) + Seq::<DiagnosticView>::empty());
            }
        }
        n = n + 1;
    }
    assert(old(classes)@.subrange(0, n as int) =~= old(classes)@);
    true
}

/// The slot of a role in support counts.
pub open spec fn role_index(role: PageRole) -> int {
    match role {
        PageRole::Btree => 0,
        PageRole::TableLeaf => 1,
        PageRole::TableInterior => 2,
        PageRole::IndexLeaf => 3,
        PageRole::IndexInterior => 4,
        PageRole::Freelist => 5,
        PageRole::FreelistTrunk => 6,
        PageRole::FreelistLeaf => 7,
        PageRole::Overflow => 8,
        PageRole::PointerMap => 9,
        PageRole::LockByte => 10,
        PageRole::Unknown => 11,
        PageRole::Conflicting => 12,
    }
}

fn role_slot(role: PageRole) -> (r: usize)
    ensures
        r == role_index(role),
        r < 13,
{
    match role {
        PageRole::Btree => 0,
        PageRole::TableLeaf => 1,
        PageRole::TableInterior => 2,
        PageRole::IndexLeaf => 3,
        PageRole::IndexInterior => 4,
        PageRole::Freelist => 5,
        PageRole::FreelistTrunk => 6,
        PageRole::FreelistLeaf => 7,
        PageRole::Overflow => 8,
        PageRole::PointerMap => 9,
        PageRole::LockByte => 10,
        PageRole::Unknown => 11,
        PageRole::Conflicting => 12,
    }
}

/// The roles that claims establish, in merge order.
pub open spec fn claim_role(k: int) -> PageRole {
    if k == 0 {
        PageRole::Btree
    } else if k == 1 {
        PageRole::TableLeaf
    } else if k == 2 {
        PageRole::TableInterior
    } else if k == 3 {
        PageRole::IndexLeaf
    } else if k == 4 {
        PageRole::IndexInterior
    } else if k == 5 {
        PageRole::Freelist
    } else if k == 6 {
        PageRole::FreelistTrunk
    } else if k == 7 {
        PageRole::FreelistLeaf
    } else if k == 8 {
        PageRole::Overflow
    } else if k == 9 {
        PageRole::PointerMap
    } else {
        PageRole::LockByte
    }
}

/// The merge of the first `k` claim roles that `counts` supports.
pub open spec fn physical_from(counts: Seq<usize>, k: int) -> PageRole
    decreases k,
{
    if k <= 0 {
        PageRole::Unknown
    } else {
        let before = physical_from(counts, k - 1);
        if counts[role_index(claim_role(k - 1))] > 0 { spec_merge(before, claim_role(k - 1)) } else { before }
    }
}

/// The role that the credible claims counted in `counts` support together.
pub open spec fn spec_physical(counts: Seq<usize>) -> PageRole {
    physical_from(counts, 11)
}

/// How many credible claims of `claims` establish `role`.
pub open spec fn role_count(claims: Seq<RoleClaim>, role: PageRole) -> int
    decreases claims.len(),
{
    if claims.len() == 0 {
        0
    } else {
        role_count(claims.drop_last(), role) + if spec_credible(claims.last().state) && claims.last().role == role { 1int } else { 0 }
    }
}

/// How many claims of `claims` mark their page conflicting.
pub open spec fn conflict_count(claims: Seq<RoleClaim>) -> int
    decreases claims.len(),
{
    if claims.len() == 0 {
        0
    } else {
        conflict_count(claims.drop_last()) + if marks_conflict(claims.last()) { 1int } else { 0 }
    }
}

/// Counts of the credible claims on one page, by role, and of the claims
/// that mark it conflicting.
pub struct RoleSupport {
    pub counts: Vec<usize>,
    pub conflicts: usize,
}

impl RoleSupport {
    /// `self` counts exactly the credible claims of `claims`.
    pub open spec fn supports(&self, claims: Seq<RoleClaim>) -> bool {
        &&& self.counts@.len() == 13
        &&& forall|r: PageRole| #[trigger] self.counts@[role_index(r)] == role_count(claims, r)
        &&& self.conflicts == conflict_count(claims)
    }

    /// Support with nothing counted.
    pub fn none() -> (r: Self)
        ensures
            r.supports(seq![]),
    {
        let mut counts: Vec<usize> = Vec::new();
        let mut k: usize = 0;
        while k < 13
            invariant
                k <= 13,
                counts@.len() == k,
                forall|j: int| 0 <= j < k ==> counts@[j] == 0,
            decreases 13 - k,
        {
            counts.push(0);
            k = k + 1;
        }
        let r = RoleSupport { counts, conflicts: 0 };
        assert forall|role: PageRole| #[trigger] r.counts@[role_index(role)] == role_count(seq![], role) by {}
        r
    }

    /// The role the counted claims support.
    pub fn physical(&self) -> (r: PageRole)
        requires
            self.counts@.len() == 13,
        ensures
            r == spec_physical(self.counts@),
    {
        let mut role = PageRole::Unknown;
        if self.counts[0] > 0 { role = merge(role, PageRole::Btree); }
        if self.counts[1] > 0 { role = merge(role, PageRole::TableLeaf); }
        if self.counts[2] > 0 { role = merge(role, PageRole::TableInterior); }
        if self.counts[3] > 0 { role = merge(role, PageRole::IndexLeaf); }
        if self.counts[4] > 0 { role = merge(role, PageRole::IndexInterior); }
        if self.counts[5] > 0 { role = merge(role, PageRole::Freelist); }
        if self.counts[6] > 0 { role = merge(role, PageRole::FreelistTrunk); }
        if self.counts[7] > 0 { role = merge(role, PageRole::FreelistLeaf); }
        if self.counts[8] > 0 { role = merge(role, PageRole::Overflow); }
        if self.counts[9] > 0 { role = merge(role, PageRole::PointerMap); }
        if self.counts[10] > 0 { role = merge(role, PageRole::LockByte); }
        proof {
            reveal_with_fuel(physical_from, 12);
        }
        role
    }

    /// Stops counting claim `index` of `claims`, a credible claim that is
    /// withdrawn and so becomes unresolved.
    pub fn remove(&mut self, claim: &RoleClaim, Ghost(claims): Ghost<Seq<RoleClaim>>, Ghost(index): Ghost<int>)
        requires
            old(self).supports(claims),
            0 <= index < claims.len(),
            claims[index] == *claim,
            spec_credible(claim.state),
        ensures
            final(self).supports(claims.update(index, RoleClaim {
                state: RelationshipState::Unresolved,
                relationship_stop: Some(TraversalStopReason::ConflictingClaim),
                ..*claim
            })),
    {
        let ghost withdrawn = RoleClaim {
            state: RelationshipState::Unresolved,
            relationship_stop: Some(TraversalStopReason::ConflictingClaim),
            ..*claim
        };
        proof {
            lemma_count_update(claims, index, withdrawn, claim.role);
            lemma_count_nonneg(claims.update(index, withdrawn), claim.role);
        }
        let slot = role_slot(claim.role);
        self.counts.set(slot, self.counts[slot] - 1);
        if claim.state == RelationshipState::Conflicting && claim.relationship_stop != Some(TraversalStopReason::Cycle) {
            self.conflicts = self.conflicts - 1;
        }
        assert forall|r: PageRole| #[trigger] self.counts@[role_index(r)] == role_count(claims.update(index, withdrawn), r) by {
            lemma_count_update(claims, index, withdrawn, r);
            if r != claim.role {
                assert(role_index(r) != role_index(claim.role));
            }
        }
    }

    /// Counts one more claim, if it is credible.
    pub fn add(&mut self, claim: &RoleClaim, Ghost(claims): Ghost<Seq<RoleClaim>>)
        requires
            old(self).supports(claims),
            claims.len() < usize::MAX,
            forall|r: PageRole| role_count(claims, r) <= claims.len(),
            conflict_count(claims) <= claims.len(),
        ensures
            final(self).supports(claims.push(*claim)),
    {
        let ghost next = claims.push(*claim);
        assert(next.drop_last() =~= claims);
        if credible(claim.state) {
            let slot = role_slot(claim.role);
            assert(self.counts@[role_index(claim.role)] == role_count(claims, claim.role));
            self.counts.set(slot, self.counts[slot] + 1);
            if claim.state == RelationshipState::Conflicting && claim.relationship_stop != Some(TraversalStopReason::Cycle) {
                self.conflicts = self.conflicts + 1;
            }
            assert forall|r: PageRole| #[trigger] self.counts@[role_index(r)] == role_count(next, r) by {
                if r != claim.role {
                    assert(role_index(r) != role_index(claim.role));
                }
            }
        } else {
            assert forall|r: PageRole| #[trigger] self.counts@[role_index(r)] == role_count(next, r) by {}
        }
    }
}

pub proof fn lemma_count_update(claims: Seq<RoleClaim>, i: int, c: RoleClaim, role: PageRole)
    requires
        0 <= i < claims.len(),
    ensures
        role_count(claims.update(i, c), role) == role_count(claims, role)
            - (if spec_credible(claims[i].state) && claims[i].role == role { 1int } else { 0 })
            + (if spec_credible(c.state) && c.role == role { 1int } else { 0 }),
        conflict_count(claims.update(i, c)) == conflict_count(claims)
            - (if marks_conflict(claims[i]) { 1int } else { 0 })
            + (if marks_conflict(c) { 1int } else { 0 }),
    decreases claims.len(),
{
    let updated = claims.update(i, c);
    if i == claims.len() - 1 {
        assert(updated.drop_last() =~= claims.drop_last());
    } else {
        lemma_count_update(claims.drop_last(), i, c, role);
        assert(updated.drop_last() =~= claims.drop_last().update(i, c));
    }
}

pub proof fn lemma_count_nonneg(claims: Seq<RoleClaim>, role: PageRole)
    ensures
        0 <= role_count(claims, role) <= claims.len(),
        0 <= conflict_count(claims) <= claims.len(),
    decreases claims.len(),
{
    if claims.len() > 0 {
        lemma_count_nonneg(claims.drop_last(), role);
    }
}

/// The evidence whose credibility rests on a source page keeping its role.
#[derive(Clone, Copy, Debug, PartialEq, Eq, Structural)]
pub enum DependentEvidence {
    /// A relationship claim, by position.
    Relationship(usize),
    /// A pointer-map entry, by map page and entry position.
    PointerMap(usize, usize),
}

/// Role claim `index` of inventory page `page` that holds only while its
/// source keeps a role that `requirement` accepts.
#[derive(Clone, Copy, Debug, PartialEq, Eq, Structural)]
pub struct Dependency {
    pub page: usize,
    pub index: usize,
    pub evidence: DependentEvidence,
    pub requirement: Requirement,
}

/// The dependencies that rest on one source page.
pub struct Outgoing {
    pub source: u32,
    pub dependencies: Vec<Dependency>,
}

/// The support of every page's role and the dependencies between pages.
pub struct Dependencies {
    pub support: Vec<RoleSupport>,
    /// By source page, in increasing order.
    pub outgoing: Vec<Outgoing>,
}

/// The position of the last claim of `claims` made by relationship `id`.
pub open spec fn last_with_id(claims: Seq<RoleClaim>, id: ClaimId) -> Option<int>
    decreases claims.len(),
{
    if claims.len() == 0 {
        None
    } else if claims.last().relationship_id == Some(id) {
        Some(claims.len() - 1)
    } else {
        last_with_id(claims.drop_last(), id)
    }
}

/// The last slot, in page order, of a claim made by relationship `id`.
pub open spec fn relationship_slot(classes: Seq<PageClassification>, id: ClaimId) -> Option<(int, int)>
    decreases classes.len(),
{
    if classes.len() == 0 {
        None
    } else {
        match last_with_id(classes.last().claims@, id) {
            Some(q) => Some((classes.len() - 1, q)),
            None => relationship_slot(classes.drop_last(), id),
        }
    }
}

pub open spec fn map_claim_at(c: RoleClaim, number: u32, offset: u32) -> bool {
    c.source == RoleSource::PointerMap && c.evidence.page.page_number == number && c.evidence.range.page_offset == offset
}

pub open spec fn last_map_claim(claims: Seq<RoleClaim>, number: u32, offset: u32) -> Option<int>
    decreases claims.len(),
{
    if claims.len() == 0 {
        None
    } else if map_claim_at(claims.last(), number, offset) {
        Some(claims.len() - 1)
    } else {
        last_map_claim(claims.drop_last(), number, offset)
    }
}

/// The last slot, in page order, of the claim of the entry at byte `offset`
/// of map page `number`.
pub open spec fn map_slot(classes: Seq<PageClassification>, number: u32, offset: u32) -> Option<(int, int)>
    decreases classes.len(),
{
    if classes.len() == 0 {
        None
    } else {
        match last_map_claim(classes.last().claims@, number, offset) {
            Some(q) => Some((classes.len() - 1, q)),
            None => map_slot(classes.drop_last(), number, offset),
        }
    }
}

/// The role a relationship needs its source to keep.
pub open spec fn claim_requirement(c: RelationshipClaim) -> Requirement {
    match c.kind {
        RelationshipKind::BtreeChild => Requirement::Btree,
        RelationshipKind::Overflow => if c.source is Cell { Requirement::Btree } else { Requirement::Overflow },
        RelationshipKind::FreelistTrunk => if spec_source_page(c.source) == 1 { Requirement::Header } else { Requirement::FreelistTrunk },
        RelationshipKind::FreelistLeaf => Requirement::FreelistTrunk,
    }
}

/// The role a pointer-map entry needs its parent to keep, for entries whose
/// parent is a page with content.
pub open spec fn entry_requirement(e: PointerMapEntry) -> Option<Requirement> {
    match e.kind {
        Some(PointerMapKind::BtreeChild) => Some(Requirement::Btree),
        Some(PointerMapKind::FirstOverflow) => Some(Requirement::Btree),
        Some(PointerMapKind::Overflow) => Some(Requirement::Overflow),
        _ => None,
    }
}

/// The relationship dependencies resting on page `s`, in claim order.
pub open spec fn relationship_dependencies(classes: Seq<PageClassification>, claims: Seq<RelationshipClaim>, s: u32) -> Seq<Dependency>
    decreases claims.len(),
{
    if claims.len() == 0 {
        seq![]
    } else {
        let i = claims.len() - 1;
        let c = claims[i];
        relationship_dependencies(classes, claims.drop_last(), s) + match relationship_slot(classes, c.id) {
            Some((p, q)) => if spec_source_page(c.source) == s {
                seq![Dependency { page: p as usize, index: q as usize, evidence: DependentEvidence::Relationship(i as usize), requirement: claim_requirement(c) }]
            } else {
                seq![]
            },
            None => seq![],
        }
    }
}

/// The dependencies of the entries of map page `m` (page `number`) on page `s`.
pub open spec fn entry_dependencies(classes: Seq<PageClassification>, entries: Seq<PointerMapEntry>, m: int, number: u32, s: u32) -> Seq<Dependency>
    decreases entries.len(),
{
    if entries.len() == 0 {
        seq![]
    } else {
        let q = entries.len() - 1;
        let e = entries[q];
        entry_dependencies(classes, entries.drop_last(), m, number, s) + match map_slot(classes, number, e.evidence.range.page_offset) {
            Some((p, k)) => match (entry_requirement(e), e.parent_value) {
                (Some(requirement), Some(parent)) => if parent == s {
                    seq![Dependency { page: p as usize, index: k as usize, evidence: DependentEvidence::PointerMap(m as usize, q as usize), requirement }]
                } else {
                    seq![]
                },
                _ => seq![],
            },
            None => seq![],
        }
    }
}

pub open spec fn map_dependencies(classes: Seq<PageClassification>, pages: Seq<PointerMapPage>, s: u32) -> Seq<Dependency>
    decreases pages.len(),
{
    if pages.len() == 0 {
        seq![]
    } else {
        map_dependencies(classes, pages.drop_last(), s) + entry_dependencies(classes, pages.last().entries@, pages.len() - 1, pages.last().page.page_number, s)
    }
}

/// Everything whose credibility rests on page `s`: relationships from it in
/// claim order, then pointer-map entries that name it as parent.
pub open spec fn dependencies_of(classes: Seq<PageClassification>, claims: Seq<RelationshipClaim>, maps: Option<PointerMapEvidence>, s: u32) -> Seq<Dependency> {
    relationship_dependencies(classes, claims, s) + match maps {
        Some(m) => map_dependencies(classes, m.pages@, s),
        None => seq![],
    }
}

/// `outgoing` lists, in increasing source order, exactly the sources that
/// `deps` gives dependencies, each with them.
pub open spec fn indexes(outgoing: Seq<Outgoing>, deps: spec_fn(u32) -> Seq<Dependency>) -> bool {
    &&& forall|i: int, j: int| 0 <= i < j < outgoing.len() ==> (#[trigger] outgoing[i]).source < (#[trigger] outgoing[j]).source
    &&& forall|k: int| 0 <= k < outgoing.len() ==> (#[trigger] outgoing[k]).dependencies@ == deps(outgoing[k].source)
        && deps(outgoing[k].source).len() > 0
    &&& forall|s: u32| #[trigger] deps(s).len() > 0 ==> exists|k: int| 0 <= k < outgoing.len() && (#[trigger] outgoing[k]).source == s
}

/// Records `dependency` as resting on `source`.
fn add_dependency(outgoing: &mut Vec<Outgoing>, source: u32, dependency: Dependency, Ghost(deps): Ghost<spec_fn(u32) -> Seq<Dependency>>)
    requires
        indexes(old(outgoing)@, deps),
    ensures
        indexes(final(outgoing)@, |s: u32| if s == source { deps(s).push(dependency) } else { deps(s) }),
{
    let ghost after = |s: u32| if s == source { deps(s).push(dependency) } else { deps(s) };
    let mut k: usize = 0;
    while k < outgoing.len() && outgoing[k].source < source
        invariant
            k <= outgoing@.len(),
            indexes(outgoing@, deps),
            outgoing@ == old(outgoing)@,
            forall|j: int| 0 <= j < k ==> (#[trigger] outgoing@[j]).source < source,
        decreases outgoing@.len() - k,
    {
        k = k + 1;
    }
    if k < outgoing.len() && outgoing[k].source == source {
        let ghost before = outgoing@;
        outgoing[k].dependencies.push(dependency);
        assert forall|i: int, j: int| 0 <= i < j < outgoing@.len() implies (#[trigger] outgoing@[i]).source < (#[trigger] outgoing@[j]).source by {
            assert(before[i].source < before[j].source);
        }
        assert forall|m: int| 0 <= m < outgoing@.len() implies (#[trigger] outgoing@[m]).dependencies@ == after(outgoing@[m].source)
            && after(outgoing@[m].source).len() > 0 by {
            if m != k {
                assert(outgoing@[m] == before[m]);
                assert(before[m].source != source) by {
                    if m < k { assert(before[m].source < before[k as int].source); } else { assert(before[k as int].source < before[m].source); }
                }
            }
        }
        assert forall|t: u32| #[trigger] after(t).len() > 0 implies exists|m: int| 0 <= m < outgoing@.len() && (#[trigger] outgoing@[m]).source == t by {
            if t == source {
                assert(outgoing@[k as int].source == t);
            } else {
                assert(deps(t).len() > 0);
                let m = choose|m: int| 0 <= m < before.len() && (#[trigger] before[m]).source == t;
                assert(outgoing@[m].source == before[m].source);
            }
        }
    } else {
        let mut dependencies: Vec<Dependency> = Vec::new();
        dependencies.push(dependency);
        let ghost before = outgoing@;
        proof {
            if deps(source).len() > 0 {
                let m = choose|m: int| 0 <= m < before.len() && (#[trigger] before[m]).source == source;
                if m < k {
                    assert(before[m].source < source);
                } else if m > k {
                    assert(before[k as int].source < before[m].source);
                    assert(before[k as int].source >= source);
                }
                assert(false);
            }
            assert(deps(source) =~= Seq::<Dependency>::empty());
        }
        outgoing.insert(k, Outgoing { source, dependencies });
        assert forall|i: int, j: int| 0 <= i < j < outgoing@.len() implies (#[trigger] outgoing@[i]).source < (#[trigger] outgoing@[j]).source by {
            if i < k && j < k {
                assert(outgoing@[i] == before[i] && outgoing@[j] == before[j]);
            } else if i < k && j == k {
                assert(outgoing@[i] == before[i]);
            } else if i < k && j > k {
                assert(outgoing@[i] == before[i] && outgoing@[j] == before[j - 1]);
                assert(before[i].source < source);
                if k < before.len() {
                    assert(before[k as int].source > source);
                    if j - 1 > k { assert(before[k as int].source < before[j - 1].source); }
                }
            } else if i == k {
                assert(outgoing@[j] == before[j - 1]);
                assert(before[k as int].source > source);
                if j - 1 > k { assert(before[k as int].source < before[j - 1].source); }
            } else {
                assert(outgoing@[i] == before[i - 1] && outgoing@[j] == before[j - 1]);
            }
        }
        assert forall|m: int| 0 <= m < outgoing@.len() implies (#[trigger] outgoing@[m]).dependencies@ == after(outgoing@[m].source)
            && after(outgoing@[m].source).len() > 0 by {
            if m < k {
                assert(outgoing@[m] == before[m]);
            } else if m > k {
                assert(outgoing@[m] == before[m - 1]);
                assert(before[k as int].source > source);
                if m - 1 > k { assert(before[k as int].source < before[m - 1].source); }
            } else {
                assert(outgoing@[m].dependencies@ =~= seq![dependency]);
                assert(after(source) =~= seq![dependency]);
            }
        }
        assert forall|t: u32| #[trigger] after(t).len() > 0 implies exists|m: int| 0 <= m < outgoing@.len() && (#[trigger] outgoing@[m]).source == t by {
            if t == source {
                assert(outgoing@[k as int].source == t);
            } else {
                assert(deps(t).len() > 0);
                let m = choose|m: int| 0 <= m < before.len() && (#[trigger] before[m]).source == t;
                if m < k {
                    assert(outgoing@[m].source == t);
                } else {
                    assert(outgoing@[m + 1].source == t);
                }
            }
        }
    }
}

proof fn lemma_indexes_ext(outgoing: Seq<Outgoing>, f: spec_fn(u32) -> Seq<Dependency>, g: spec_fn(u32) -> Seq<Dependency>)
    requires
        indexes(outgoing, f),
        forall|s: u32| #[trigger] f(s) == g(s),
    ensures
        indexes(outgoing, g),
{
    assert forall|t: u32| #[trigger] g(t).len() > 0 implies exists|m: int| 0 <= m < outgoing.len() && (#[trigger] outgoing[m]).source == t by {
        assert(f(t) == g(t));
    }
    assert forall|k: int| 0 <= k < outgoing.len() implies (#[trigger] outgoing[k]).dependencies@ == g(outgoing[k].source)
        && g(outgoing[k].source).len() > 0 by {
        assert(f(outgoing[k].source) == g(outgoing[k].source));
    }
}

fn last_claim_with_id(claims: &Vec<RoleClaim>, id: ClaimId) -> (r: Option<usize>)
    ensures
        match last_with_id(claims@, id) {
            Some(q) => r == Some(q as usize) && 0 <= q < claims@.len(),
            None => r is None,
        },
{
    let mut k = claims.len();
    assert(claims@.subrange(0, k as int) =~= claims@);
    while k > 0
        invariant
            k <= claims@.len(),
            last_with_id(claims@, id) == last_with_id(claims@.subrange(0, k as int), id),
        decreases k,
    {
        assert(claims@.subrange(0, k as int).drop_last() =~= claims@.subrange(0, k - 1));
        if claims[k - 1].relationship_id == Some(id) {
            return Some(k - 1);
        }
        k = k - 1;
    }
    None
}

fn last_claim_at(claims: &Vec<RoleClaim>, number: u32, offset: u32) -> (r: Option<usize>)
    ensures
        match last_map_claim(claims@, number, offset) {
            Some(q) => r == Some(q as usize) && 0 <= q < claims@.len(),
            None => r is None,
        },
{
    let mut k = claims.len();
    assert(claims@.subrange(0, k as int) =~= claims@);
    while k > 0
        invariant
            k <= claims@.len(),
            last_map_claim(claims@, number, offset) == last_map_claim(claims@.subrange(0, k as int), number, offset),
        decreases k,
    {
        assert(claims@.subrange(0, k as int).drop_last() =~= claims@.subrange(0, k - 1));
        let c = claims[k - 1];
        if c.source == RoleSource::PointerMap && c.evidence.page.page_number == number && c.evidence.range.page_offset == offset {
            return Some(k - 1);
        }
        k = k - 1;
    }
    None
}

/// Where the role claim of relationship `id` lies.
fn find_relationship_slot(classes: &Vec<PageClassification>, id: ClaimId) -> (r: Option<(usize, usize)>)
    ensures
        match relationship_slot(classes@, id) {
            Some((p, q)) => r == Some((p as usize, q as usize)) && 0 <= p < classes@.len() && 0 <= q < classes@[p].claims@.len(),
            None => r is None,
        },
{
    let mut p = classes.len();
    assert(classes@.subrange(0, p as int) =~= classes@);
    while p > 0
        invariant
            p <= classes@.len(),
            relationship_slot(classes@, id) == relationship_slot(classes@.subrange(0, p as int), id),
        decreases p,
    {
        assert(classes@.subrange(0, p as int).drop_last() =~= classes@.subrange(0, p - 1));
        assert(classes@.subrange(0, p as int).last() == classes@[p - 1]);
        match last_claim_with_id(&classes[p - 1].claims, id) {
            Some(q) => return Some((p - 1, q)),
            None => {},
        }
        p = p - 1;
    }
    None
}

/// Where the role claim of the entry at byte `offset` of map page `number` lies.
fn find_map_slot(classes: &Vec<PageClassification>, number: u32, offset: u32) -> (r: Option<(usize, usize)>)
    ensures
        match map_slot(classes@, number, offset) {
            Some((p, q)) => r == Some((p as usize, q as usize)) && 0 <= p < classes@.len() && 0 <= q < classes@[p].claims@.len(),
            None => r is None,
        },
{
    let mut p = classes.len();
    assert(classes@.subrange(0, p as int) =~= classes@);
    while p > 0
        invariant
            p <= classes@.len(),
            map_slot(classes@, number, offset) == map_slot(classes@.subrange(0, p as int), number, offset),
        decreases p,
    {
        assert(classes@.subrange(0, p as int).drop_last() =~= classes@.subrange(0, p - 1));
        assert(classes@.subrange(0, p as int).last() == classes@[p - 1]);
        match last_claim_at(&classes[p - 1].claims, number, offset) {
            Some(q) => return Some((p - 1, q)),
            None => {},
        }
        p = p - 1;
    }
    None
}

fn requirement_of(claim: &RelationshipClaim) -> (r: Requirement)
    ensures
        r == claim_requirement(*claim),
{
    match claim.kind {
        RelationshipKind::BtreeChild => Requirement::Btree,
        RelationshipKind::Overflow => match claim.source {
            EntityIdentity::Cell { .. } => Requirement::Btree,
            EntityIdentity::Page { .. } => Requirement::Overflow,
        },
        RelationshipKind::FreelistTrunk => if crate::topology::source_page(&claim.source) == 1 {
            Requirement::Header
        } else {
            Requirement::FreelistTrunk
        },
        RelationshipKind::FreelistLeaf => Requirement::FreelistTrunk,
    }
}

fn entry_requirement_of(entry: &PointerMapEntry) -> (r: Option<Requirement>)
    ensures
        r == entry_requirement(*entry),
{
    match entry.kind {
        Some(PointerMapKind::BtreeChild) => Some(Requirement::Btree),
        Some(PointerMapKind::FirstOverflow) => Some(Requirement::Btree),
        Some(PointerMapKind::Overflow) => Some(Requirement::Overflow),
        _ => None,
    }
}

/// The support of one page's role.
fn page_support(claims: &Vec<RoleClaim>, control: &mut WorkControl) -> (r: Option<RoleSupport>)
    ensures
        control_kept(*old(control), *final(control)),
        r is None ==> final(control).is_stopped(),
        r matches Some(support) ==> support.supports(claims@),
{
    let mut support = RoleSupport::none();
    let mut k: usize = 0;
    assert(claims@.subrange(0, 0) =~= Seq::<RoleClaim>::empty());
    while k < claims.len()
        invariant
            k <= claims@.len(),
            support.supports(claims@.subrange(0, k as int)),
            control_kept(*old(control), *control),
        decreases claims@.len() - k,
    {
        if !checkpoint(control) {
            return None;
        }
        proof {
            lemma_count_nonneg(claims@.subrange(0, k as int), PageRole::Unknown);
            assert forall|r: PageRole| role_count(claims@.subrange(0, k as int), r) <= claims@.subrange(0, k as int).len() by {
                lemma_count_nonneg(claims@.subrange(0, k as int), r);
            }
        }
        support.add(&claims[k], Ghost(claims@.subrange(0, k as int)));
        assert(claims@.subrange(0, k as int).push(claims@[k as int]) =~= claims@.subrange(0, k + 1));
        k = k + 1;
    }
    assert(claims@.subrange(0, k as int) =~= claims@);
    Some(support)
}

impl Dependencies {
    /// The support of every page and, by source page, every claim whose
    /// credibility rests on its source keeping its role; `None` on a stop.
    pub fn collect(classes: &Vec<PageClassification>, topology: &Topology, control: &mut WorkControl) -> (r: Option<Self>)
        ensures
            control_kept(*old(control), *final(control)),
            r is None ==> final(control).is_stopped(),
            r matches Some(d) ==> {
                &&& d.support@.len() == classes@.len()
                &&& forall|n: int| 0 <= n < classes@.len() ==> (#[trigger] d.support@[n]).supports(classes@[n].claims@)
                &&& indexes(d.outgoing@, |s: u32| dependencies_of(classes@, topology.claims@, topology.pointer_map, s))
            },
    {
        let mut support: Vec<RoleSupport> = Vec::new();
        let mut n: usize = 0;
        while n < classes.len()
            invariant
                n <= classes@.len(),
                support@.len() == n,
                forall|m: int| 0 <= m < n ==> (#[trigger] support@[m]).supports(classes@[m].claims@),
                control_kept(*old(control), *control),
            decreases classes@.len() - n,
        {
            if !checkpoint(control) {
                return None;
            }
            match page_support(&classes[n].claims, control) {
                Some(page) => support.push(page),
                None => return None,
            }
            n = n + 1;
        }
        let claims = &topology.claims;
        let mut outgoing: Vec<Outgoing> = Vec::new();
        let ghost none = |s: u32| Seq::<Dependency>::empty();
        assert(indexes(outgoing@, none));
        proof {
            lemma_indexes_ext(outgoing@, none, |s: u32| relationship_dependencies(classes@, claims@.subrange(0, 0), s));
        }
        let mut i: usize = 0;
        while i < claims.len()
            invariant
                i <= claims@.len(),
                claims@ == topology.claims@,
                indexes(outgoing@, |s: u32| relationship_dependencies(classes@, claims@.subrange(0, i as int), s)),
                control_kept(*old(control), *control),
            decreases claims@.len() - i,
        {
            if !checkpoint(control) {
                return None;
            }
            let claim = claims[i];
            let ghost part = claims@.subrange(0, i as int);
            let ghost next = claims@.subrange(0, i + 1);
            assert(next.drop_last() =~= part);
            assert(next[i as int] == claim);
            let ghost before = |s: u32| relationship_dependencies(classes@, part, s);
            let ghost after = |s: u32| relationship_dependencies(classes@, next, s);
            match find_relationship_slot(classes, claim.id) {
                None => {
                    proof {
                        assert forall|t: u32| #[trigger] before(t) == after(t) by {
                            assert(after(t) =~= before(t) + Seq::<Dependency>::empty());
                        }
                        lemma_indexes_ext(outgoing@, before, after);
                    }
                },
                Some((page, index)) => {
                    let source = crate::topology::source_page(&claim.source);
                    let dependency = Dependency {
                        page,
                        index,
                        evidence: DependentEvidence::Relationship(i),
                        requirement: requirement_of(&claim),
                    };
                    if !checkpoint(control) {
                        return None;
                    }
                    add_dependency(&mut outgoing, source, dependency, Ghost(before));
                    proof {
                        let added = |t: u32| if t == source { before(t).push(dependency) } else { before(t) };
                        assert forall|t: u32| #[trigger] added(t) == after(t) by {
                            if t == source {
                                assert(after(t) =~= before(t) + seq![dependency]);
                            } else {
                                assert(after(t) =~= before(t) + Seq::<Dependency>::empty());
                            }
                        }
                        lemma_indexes_ext(outgoing@, added, after);
                    }
                },
            }
            i = i + 1;
        }
        assert(claims@.subrange(0, i as int) =~= claims@);
        let ghost relationship_part = |s: u32| relationship_dependencies(classes@, claims@, s);
        match &topology.pointer_map {
            None => {
                proof {
                    assert forall|t: u32| #[trigger] relationship_part(t) == dependencies_of(classes@, topology.claims@, topology.pointer_map, t) by {
                        assert(relationship_part(t) + Seq::<Dependency>::empty() =~= relationship_part(t));
                    }
                    lemma_indexes_ext(outgoing@, relationship_part, |s: u32| dependencies_of(classes@, topology.claims@, topology.pointer_map, s));
                }
            },
            Some(maps) => {
                let pages = &maps.pages;
                proof {
                    assert forall|t: u32| #[trigger] relationship_part(t) == relationship_part(t) + map_dependencies(classes@, pages@.subrange(0, 0), t) by {
                        assert(relationship_part(t) + Seq::<Dependency>::empty() =~= relationship_part(t));
                    }
                    lemma_indexes_ext(outgoing@, relationship_part, |s: u32| relationship_part(s) + map_dependencies(classes@, pages@.subrange(0, 0), s));
                }
                let mut m: usize = 0;
                while m < pages.len()
                    invariant
                        m <= pages@.len(),
                        pages@ == maps.pages@,
                        relationship_part == (|s: u32| relationship_dependencies(classes@, topology.claims@, s)),
                        indexes(outgoing@, |s: u32| relationship_part(s) + map_dependencies(classes@, pages@.subrange(0, m as int), s)),
                        control_kept(*old(control), *control),
                    decreases pages@.len() - m,
                {
                    if !checkpoint(control) {
                        return None;
                    }
                    let map = &pages[m];
                    let entries = &map.entries;
                    let number = map.page.page_number;
                    let ghost page_part = pages@.subrange(0, m as int);
                    let ghost page_next = pages@.subrange(0, m + 1);
                    assert(page_next.drop_last() =~= page_part);
                    assert(page_next.last() == *map);
                    proof {
                        assert forall|t: u32| #[trigger] (relationship_part(t) + map_dependencies(classes@, page_part, t))
                            == relationship_part(t) + map_dependencies(classes@, page_part, t) + entry_dependencies(classes@, entries@.subrange(0, 0), m as int, number, t) by {
                            assert(entry_dependencies(classes@, entries@.subrange(0, 0), m as int, number, t) =~= Seq::<Dependency>::empty());
                            assert(relationship_part(t) + map_dependencies(classes@, page_part, t) + Seq::<Dependency>::empty()
                                =~= relationship_part(t) + map_dependencies(classes@, page_part, t));
                        }
                        lemma_indexes_ext(outgoing@, |s: u32| relationship_part(s) + map_dependencies(classes@, page_part, s),
                            |s: u32| relationship_part(s) + map_dependencies(classes@, page_part, s) + entry_dependencies(classes@, entries@.subrange(0, 0), m as int, number, s));
                    }
                    let mut q: usize = 0;
                    while q < entries.len()
                        invariant
                            q <= entries@.len(),
                            entries@ == pages@[m as int].entries@,
                            number == pages@[m as int].page.page_number,
                            indexes(outgoing@, |s: u32| relationship_part(s) + map_dependencies(classes@, page_part, s) + entry_dependencies(classes@, entries@.subrange(0, q as int), m as int, number, s)),
                            control_kept(*old(control), *control),
                        decreases entries@.len() - q,
                    {
                        if !checkpoint(control) {
                            return None;
                        }
                        let entry = &entries[q];
                        let ghost epart = entries@.subrange(0, q as int);
                        let ghost enext = entries@.subrange(0, q + 1);
                        assert(enext.drop_last() =~= epart);
                        assert(enext[q as int] == *entry);
                        let ghost before = |s: u32| relationship_part(s) + map_dependencies(classes@, page_part, s) + entry_dependencies(classes@, epart, m as int, number, s);
                        let ghost after = |s: u32| relationship_part(s) + map_dependencies(classes@, page_part, s) + entry_dependencies(classes@, enext, m as int, number, s);
                        let slot = find_map_slot(classes, number, entry.evidence.range.page_offset);
                        let requirement = entry_requirement_of(entry);
                        let mut added = false;
                        if let Some((page, index)) = slot {
                            if let Some(requirement) = requirement {
                                if let Some(parent) = entry.parent_value {
                                    if !checkpoint(control) {
                                        return None;
                                    }
                                    let dependency = Dependency { page, index, evidence: DependentEvidence::PointerMap(m, q), requirement };
                                    add_dependency(&mut outgoing, parent, dependency, Ghost(before));
                                    proof {
                                        let grown = |t: u32| if t == parent { before(t).push(dependency) } else { before(t) };
                                        assert forall|t: u32| #[trigger] grown(t) == after(t) by {
                                            if t == parent {
                                                assert(after(t) =~= before(t) + seq![dependency]);
                                            } else {
                                                assert(after(t) =~= before(t) + Seq::<Dependency>::empty());
                                            }
                                        }
                                        lemma_indexes_ext(outgoing@, grown, after);
                                    }
                                    added = true;
                                }
                            }
                        }
                        if !added {
                            proof {
                                assert forall|t: u32| #[trigger] before(t) == after(t) by {
                                    assert(after(t) =~= before(t) + Seq::<Dependency>::empty());
                                }
                                lemma_indexes_ext(outgoing@, before, after);
                            }
                        }
                        q = q + 1;
                    }
                    proof {
                        assert(entries@.subrange(0, q as int) =~= entries@);
                        assert forall|t: u32| #[trigger] (relationship_part(t) + map_dependencies(classes@, page_part, t) + entry_dependencies(classes@, entries@, m as int, number, t))
                            == relationship_part(t) + map_dependencies(classes@, page_next, t) by {
                            assert(map_dependencies(classes@, page_next, t) == map_dependencies(classes@, page_part, t) + entry_dependencies(classes@, entries@, m as int, number, t));
                            assert(relationship_part(t) + map_dependencies(classes@, page_part, t) + entry_dependencies(classes@, entries@, m as int, number, t)
                                =~= relationship_part(t) + map_dependencies(classes@, page_next, t));
                        }
                        lemma_indexes_ext(outgoing@,
                            |s: u32| relationship_part(s) + map_dependencies(classes@, page_part, s) + entry_dependencies(classes@, entries@.subrange(0, q as int), m as int, number, s),
                            |s: u32| relationship_part(s) + map_dependencies(classes@, page_next, s));
                    }
                    m = m + 1;
                }
                proof {
                    assert(pages@.subrange(0, m as int) =~= pages@);
                    lemma_indexes_ext(outgoing@, |s: u32| relationship_part(s) + map_dependencies(classes@, pages@.subrange(0, m as int), s),
                        |s: u32| dependencies_of(classes@, topology.claims@, topology.pointer_map, s));
                }
            },
        }
        Some(Dependencies { support, outgoing })
    }
}

/// Dependency `d` names a real role claim and real evidence.
pub open spec fn dependency_valid(d: Dependency, classes: Seq<PageClassification>, claims_len: int, maps: Option<PointerMapEvidence>) -> bool {
    &&& d.page < classes.len()
    &&& d.index < classes[d.page as int].claims@.len()
    &&& match d.evidence {
        DependentEvidence::Relationship(i) => i < claims_len,
        DependentEvidence::PointerMap(m, q) => maps matches Some(mm) && m < mm.pages@.len() && q < mm.pages@[m as int].entries@.len(),
    }
}

/// The classifications have the sizes of vectors.
pub open spec fn sized(classes: Seq<PageClassification>) -> bool {
    classes.len() <= usize::MAX && forall|p: int| 0 <= p < classes.len() ==> (#[trigger] classes[p]).claims@.len() <= usize::MAX
}

pub open spec fn map_sized(maps: PointerMapEvidence) -> bool {
    maps.pages@.len() <= usize::MAX && forall|m: int| 0 <= m < maps.pages@.len() ==> (#[trigger] maps.pages@[m]).entries@.len() <= usize::MAX
}

pub proof fn lemma_relationship_slot(classes: Seq<PageClassification>, id: ClaimId)
    ensures
        relationship_slot(classes, id) matches Some((p, q)) ==> 0 <= p < classes.len() && 0 <= q < classes[p].claims@.len(),
    decreases classes.len(),
{
    if classes.len() > 0 {
        lemma_last_with_id(classes.last().claims@, id);
        lemma_relationship_slot(classes.drop_last(), id);
    }
}

pub proof fn lemma_last_with_id(claims: Seq<RoleClaim>, id: ClaimId)
    ensures
        last_with_id(claims, id) matches Some(q) ==> 0 <= q < claims.len(),
    decreases claims.len(),
{
    if claims.len() > 0 {
        lemma_last_with_id(claims.drop_last(), id);
    }
}

pub proof fn lemma_last_map_claim(claims: Seq<RoleClaim>, number: u32, offset: u32)
    ensures
        last_map_claim(claims, number, offset) matches Some(q) ==> 0 <= q < claims.len(),
    decreases claims.len(),
{
    if claims.len() > 0 {
        lemma_last_map_claim(claims.drop_last(), number, offset);
    }
}

pub proof fn lemma_map_slot(classes: Seq<PageClassification>, number: u32, offset: u32)
    ensures
        map_slot(classes, number, offset) matches Some((p, q)) ==> 0 <= p < classes.len() && 0 <= q < classes[p].claims@.len(),
    decreases classes.len(),
{
    if classes.len() > 0 {
        lemma_last_map_claim(classes.last().claims@, number, offset);
        lemma_map_slot(classes.drop_last(), number, offset);
    }
}

pub proof fn lemma_relationship_dependencies_valid(classes: Seq<PageClassification>, claims: Seq<RelationshipClaim>, s: u32, maps: Option<PointerMapEvidence>, claims_len: int)
    requires
        claims.len() <= claims_len,
        claims_len <= usize::MAX,
        sized(classes),
    ensures
        forall|j: int| 0 <= j < relationship_dependencies(classes, claims, s).len()
            ==> dependency_valid(#[trigger] relationship_dependencies(classes, claims, s)[j], classes, claims_len, maps)
                && relationship_dependencies(classes, claims, s)[j].evidence is Relationship,
    decreases claims.len(),
{
    if claims.len() > 0 {
        lemma_relationship_dependencies_valid(classes, claims.drop_last(), s, maps, claims_len);
        lemma_relationship_slot(classes, claims.last().id);
        let rest = relationship_dependencies(classes, claims.drop_last(), s);
        let all = relationship_dependencies(classes, claims, s);
        assert forall|j: int| 0 <= j < all.len() implies dependency_valid(#[trigger] all[j], classes, claims_len, maps) && all[j].evidence is Relationship by {
            if j < rest.len() {
                assert(all[j] == rest[j]);
            }
        }
    }
}

pub proof fn lemma_entry_dependencies_valid(classes: Seq<PageClassification>, entries: Seq<PointerMapEntry>, m: int, number: u32, s: u32, maps: PointerMapEvidence, claims_len: int)
    requires
        0 <= m < maps.pages@.len(),
        entries.len() <= maps.pages@[m].entries@.len(),
        sized(classes),
        map_sized(maps),
    ensures
        forall|j: int| 0 <= j < entry_dependencies(classes, entries, m, number, s).len()
            ==> dependency_valid(#[trigger] entry_dependencies(classes, entries, m, number, s)[j], classes, claims_len, Some(maps)),
    decreases entries.len(),
{
    if entries.len() > 0 {
        lemma_entry_dependencies_valid(classes, entries.drop_last(), m, number, s, maps, claims_len);
        lemma_map_slot(classes, number, entries.last().evidence.range.page_offset);
        let rest = entry_dependencies(classes, entries.drop_last(), m, number, s);
        let all = entry_dependencies(classes, entries, m, number, s);
        assert forall|j: int| 0 <= j < all.len() implies dependency_valid(#[trigger] all[j], classes, claims_len, Some(maps)) by {
            if j < rest.len() {
                assert(all[j] == rest[j]);
            }
        }
    }
}

pub proof fn lemma_map_dependencies_valid(classes: Seq<PageClassification>, pages: Seq<PointerMapPage>, s: u32, maps: PointerMapEvidence, claims_len: int)
    requires
        pages.is_prefix_of(maps.pages@),
        sized(classes),
        map_sized(maps),
    ensures
        forall|j: int| 0 <= j < map_dependencies(classes, pages, s).len()
            ==> dependency_valid(#[trigger] map_dependencies(classes, pages, s)[j], classes, claims_len, Some(maps)),
    decreases pages.len(),
{
    if pages.len() > 0 {
        assert(pages.drop_last().is_prefix_of(maps.pages@));
        lemma_map_dependencies_valid(classes, pages.drop_last(), s, maps, claims_len);
        assert(pages.last() == maps.pages@[pages.len() - 1]);
        lemma_entry_dependencies_valid(classes, pages.last().entries@, pages.len() - 1, pages.last().page.page_number, s, maps, claims_len);
        let rest = map_dependencies(classes, pages.drop_last(), s);
        let all = map_dependencies(classes, pages, s);
        assert forall|j: int| 0 <= j < all.len() implies dependency_valid(#[trigger] all[j], classes, claims_len, Some(maps)) by {
            if j < rest.len() {
                assert(all[j] == rest[j]);
            }
        }
    }
}

/// Every dependency that rests on a page names a real claim and real evidence.
pub proof fn lemma_dependencies_valid(classes: Seq<PageClassification>, claims: Seq<RelationshipClaim>, maps: Option<PointerMapEvidence>, s: u32)
    requires
        sized(classes),
        claims.len() <= usize::MAX,
        maps matches Some(m) ==> map_sized(m),
    ensures
        forall|j: int| 0 <= j < dependencies_of(classes, claims, maps, s).len()
            ==> dependency_valid(#[trigger] dependencies_of(classes, claims, maps, s)[j], classes, claims.len() as int, maps),
{
    lemma_relationship_dependencies_valid(classes, claims, s, maps, claims.len() as int);
    let rel = relationship_dependencies(classes, claims, s);
    let all = dependencies_of(classes, claims, maps, s);
    match maps {
        Some(m) => {
            lemma_map_dependencies_valid(classes, m.pages@, s, m, claims.len() as int);
            assert forall|j: int| 0 <= j < all.len() implies dependency_valid(#[trigger] all[j], classes, claims.len() as int, maps) by {
                if j < rel.len() {
                    assert(all[j] == rel[j]);
                } else {
                    assert(all[j] == map_dependencies(classes, m.pages@, s)[j - rel.len()]);
                }
            }
        },
        None => {
            assert forall|j: int| 0 <= j < all.len() implies dependency_valid(#[trigger] all[j], classes, claims.len() as int, maps) by {
                assert(all[j] == rel[j]);
            }
        },
    }
}

/// A relationship withdrawn because its source lost the role it needs.
pub open spec fn withdrawn_claim(c: RelationshipClaim) -> RelationshipClaim {
    RelationshipClaim { state: RelationshipState::Unresolved, stop_reason: Some(TraversalStopReason::ConflictingClaim), ..c }
}

/// A role claim withdrawn because its source lost the role it needs.
pub open spec fn withdrawn_role_claim(c: RoleClaim) -> RoleClaim {
    RoleClaim { state: RelationshipState::Unresolved, relationship_stop: Some(TraversalStopReason::ConflictingClaim), ..c }
}

pub open spec fn claims_withdrawn(a: Seq<RelationshipClaim>, b: Seq<RelationshipClaim>) -> bool {
    &&& a.len() == b.len()
    &&& forall|i: int| 0 <= i < a.len() ==> #[trigger] b[i] == a[i] || b[i] == withdrawn_claim(a[i])
}

/// `b` is entry `a`, or `a` withdrawn with parent-role conflicts noted.
pub open spec fn entry_withdrawn(a: PointerMapEntry, b: PointerMapEntry) -> bool {
    &&& same_facts(a, b)
    &&& {
        ||| (b.state == a.state && b.diagnostics@ == a.diagnostics@)
        ||| {
            &&& b.state == RelationshipState::Unresolved
            &&& a.diagnostics@.len() <= b.diagnostics@.len()
            &&& b.diagnostics@.subrange(0, a.diagnostics@.len() as int) == a.diagnostics@
            &&& forall|k: int| a.diagnostics@.len() <= k < b.diagnostics@.len() ==> #[trigger] b.diagnostics@[k] == PointerMapDiagnostic::ParentRoleConflict
        }
    }
}

pub open spec fn maps_withdrawn(a: Option<PointerMapEvidence>, b: Option<PointerMapEvidence>) -> bool {
    match (a, b) {
        (None, None) => true,
        (Some(x), Some(y)) => {
            &&& y.applicable == x.applicable
            &&& y.diagnostics@ == x.diagnostics@
            &&& y.locations@ == x.locations@
            &&& y.layout == x.layout
            &&& y.lock_byte_page == x.lock_byte_page
            &&& y.complete == x.complete
            &&& y.largest_root == x.largest_root
            &&& y.incremental_vacuum == x.incremental_vacuum
            &&& y.pages@.len() == x.pages@.len()
            &&& forall|m: int| 0 <= m < x.pages@.len() ==> {
                &&& (#[trigger] y.pages@[m]).page == x.pages@[m].page
                &&& y.pages@[m].complete == x.pages@[m].complete
                &&& y.pages@[m].diagnostics@ == x.pages@[m].diagnostics@
                &&& y.pages@[m].entries@.len() == x.pages@[m].entries@.len()
                &&& forall|q: int| 0 <= q < x.pages@[m].entries@.len() ==> entry_withdrawn(#[trigger] x.pages@[m].entries@[q], y.pages@[m].entries@[q])
            }
        },
        _ => false,
    }
}

/// The note of a pointer-map entry whose parent lost the role it needs.
pub open spec fn parent_conflict_note(d: DiagnosticView) -> bool {
    &&& d.code == DiagnosticCode::PointerMap(PointerMapDiagnostic::ParentRoleConflict)
    &&& d.severity == DiagnosticSeverity::Error
    &&& d.evidence.len() == 1
    &&& d.affected_relationships.len() == 0
    &&& d.containment == Containment::RelationshipExcluded
}

/// `b` is topology `a` with some dependent claims and entries withdrawn.
pub open spec fn topology_withdrawn(a: Topology, b: Topology) -> bool {
    &&& claims_withdrawn(a.claims@, b.claims@)
    &&& maps_withdrawn(a.pointer_map, b.pointer_map)
    &&& a.diagnostics@.len() <= b.diagnostics@.len()
    &&& forall|k: int| 0 <= k < a.diagnostics@.len() ==> #[trigger] b.diagnostics@[k] == a.diagnostics@[k]
    &&& forall|k: int| a.diagnostics@.len() <= k < b.diagnostics@.len() ==> parent_conflict_note((#[trigger] b.diagnostics@[k])@)
    &&& b.freelist == a.freelist
    &&& b.relationships@ == a.relationships@
    &&& b.traversals@ == a.traversals@
    &&& b.coverage == a.coverage
    &&& b.classifications@ == a.classifications@
}

pub proof fn lemma_topology_withdrawn_chain(a: Topology, b: Topology, c: Topology)
    requires
        topology_withdrawn(a, b),
        topology_withdrawn(b, c),
    ensures
        topology_withdrawn(a, c),
{
    assert forall|i: int| 0 <= i < a.claims@.len() implies #[trigger] c.claims@[i] == a.claims@[i] || c.claims@[i] == withdrawn_claim(a.claims@[i]) by {
        assert(b.claims@[i] == a.claims@[i] || b.claims@[i] == withdrawn_claim(a.claims@[i]));
        assert(c.claims@[i] == b.claims@[i] || c.claims@[i] == withdrawn_claim(b.claims@[i]));
    }
    assert forall|k: int| a.diagnostics@.len() <= k < c.diagnostics@.len() implies parent_conflict_note((#[trigger] c.diagnostics@[k])@) by {
        if k < b.diagnostics@.len() {
            assert(c.diagnostics@[k] == b.diagnostics@[k]);
        }
    }
    match (a.pointer_map, b.pointer_map, c.pointer_map) {
        (Some(x), Some(y), Some(z)) => {
            assert forall|m: int| 0 <= m < x.pages@.len() implies {
                &&& (#[trigger] z.pages@[m]).page == x.pages@[m].page
                &&& z.pages@[m].complete == x.pages@[m].complete
                &&& z.pages@[m].diagnostics@ == x.pages@[m].diagnostics@
                &&& z.pages@[m].entries@.len() == x.pages@[m].entries@.len()
                &&& forall|q: int| 0 <= q < x.pages@[m].entries@.len() ==> entry_withdrawn(#[trigger] x.pages@[m].entries@[q], z.pages@[m].entries@[q])
            } by {
                assert(y.pages@[m].page == x.pages@[m].page);
                assert forall|q: int| 0 <= q < x.pages@[m].entries@.len() implies entry_withdrawn(#[trigger] x.pages@[m].entries@[q], z.pages@[m].entries@[q]) by {
                    let ea = x.pages@[m].entries@[q];
                    let eb = y.pages@[m].entries@[q];
                    let ec = z.pages@[m].entries@[q];
                    assert(entry_withdrawn(ea, eb));
                    assert(entry_withdrawn(eb, ec));
                    if !(ec.state == ea.state && ec.diagnostics@ == ea.diagnostics@) {
                        if eb.state == ea.state && eb.diagnostics@ == ea.diagnostics@ {
                        } else if ec.state == eb.state && ec.diagnostics@ == eb.diagnostics@ {
                        } else {
                            assert(ec.diagnostics@.subrange(0, ea.diagnostics@.len() as int) =~= eb.diagnostics@.subrange(0, ea.diagnostics@.len() as int));
                            assert forall|k: int| ea.diagnostics@.len() <= k < ec.diagnostics@.len() implies #[trigger] ec.diagnostics@[k] == PointerMapDiagnostic::ParentRoleConflict by {
                                if k < eb.diagnostics@.len() {
                                    assert(ec.diagnostics@[k] == ec.diagnostics@.subrange(0, eb.diagnostics@.len() as int)[k]);
                                }
                            }
                        }
                    }
                }
            }
        },
        _ => {},
    }
}

/// Withdraws the evidence of a dependency whose source lost the role it needs:
/// a relationship claim, or a pointer-map entry, which is noted.
pub fn invalidate_dependency(dependency: Dependency, topology: &mut Topology)
    requires
        match dependency.evidence {
            DependentEvidence::Relationship(i) => i < old(topology).claims@.len(),
            DependentEvidence::PointerMap(m, q) => old(topology).pointer_map matches Some(maps)
                && m < maps.pages@.len() && q < maps.pages@[m as int].entries@.len(),
        },
    ensures
        topology_withdrawn(*old(topology), *final(topology)),
        dependency.evidence matches DependentEvidence::Relationship(i) ==> final(topology).claims@[i as int] == withdrawn_claim(old(topology).claims@[i as int]),
{
    match dependency.evidence {
        DependentEvidence::Relationship(i) => {
            let claim = topology.claims[i];
            topology.claims.set(i, RelationshipClaim {
                state: RelationshipState::Unresolved,
                stop_reason: Some(TraversalStopReason::ConflictingClaim),
                ..claim
            });
        },
        DependentEvidence::PointerMap(m, q) => {
            let ghost before = topology.pointer_map;
            match &mut topology.pointer_map {
                Some(maps) => {
                    let ghost old_maps = *maps;
                    let ghost old_entry = maps.pages@[m as int].entries@[q as int];
                    maps.pages[m].entries[q].state = RelationshipState::Unresolved;
                    maps.pages[m].entries[q].diagnostics.push(PointerMapDiagnostic::ParentRoleConflict);
                    let entry_evidence = maps.pages[m].entries[q].evidence;
                    let mut evidence: Vec<PhysicalEvidence> = Vec::new();
                    evidence.push(entry_evidence);
                    topology.diagnostics.push(StructuralDiagnostic {
                        code: DiagnosticCode::PointerMap(PointerMapDiagnostic::ParentRoleConflict),
                        severity: DiagnosticSeverity::Error,
                        evidence,
                        affected_relationships: Vec::new(),
                        containment: Containment::RelationshipExcluded,
                    });
                    proof {
                        let new_entry = maps.pages@[m as int].entries@[q as int];
                        assert(new_entry.diagnostics@.subrange(0, old_entry.diagnostics@.len() as int) =~= old_entry.diagnostics@);
                        assert(entry_withdrawn(old_entry, new_entry));
                        assert forall|mm: int| 0 <= mm < old_maps.pages@.len() implies {
                            &&& (#[trigger] maps.pages@[mm]).page == old_maps.pages@[mm].page
                            &&& maps.pages@[mm].complete == old_maps.pages@[mm].complete
                            &&& maps.pages@[mm].diagnostics@ == old_maps.pages@[mm].diagnostics@
                            &&& maps.pages@[mm].entries@.len() == old_maps.pages@[mm].entries@.len()
                            &&& forall|qq: int| 0 <= qq < old_maps.pages@[mm].entries@.len() ==> entry_withdrawn(#[trigger] old_maps.pages@[mm].entries@[qq], maps.pages@[mm].entries@[qq])
                        } by {
                            if mm != m {
                                assert(maps.pages@[mm] == old_maps.pages@[mm]);
                            } else {
                                assert forall|qq: int| 0 <= qq < old_maps.pages@[mm].entries@.len() implies entry_withdrawn(#[trigger] old_maps.pages@[mm].entries@[qq], maps.pages@[mm].entries@[qq]) by {
                                    if qq != q {
                                        assert(maps.pages@[mm].entries@[qq] == old_maps.pages@[mm].entries@[qq]);
                                    }
                                }
                            }
                        }
                    }
                },
                None => {},
            }
        },
    }
}

/// How many claims of `claims` are credible.
pub open spec fn credible_count(claims: Seq<RoleClaim>) -> int
    decreases claims.len(),
{
    if claims.len() == 0 {
        0
    } else {
        credible_count(claims.drop_last()) + if spec_credible(claims.last().state) { 1int } else { 0 }
    }
}

/// How many role claims of all pages are credible.
pub open spec fn credible_total(classes: Seq<PageClassification>) -> int
    decreases classes.len(),
{
    if classes.len() == 0 {
        0
    } else {
        credible_total(classes.drop_last()) + credible_count(classes.last().claims@)
    }
}

pub proof fn lemma_credible_count_update(claims: Seq<RoleClaim>, i: int, c: RoleClaim)
    requires
        0 <= i < claims.len(),
    ensures
        credible_count(claims.update(i, c)) == credible_count(claims)
            - (if spec_credible(claims[i].state) { 1int } else { 0 })
            + (if spec_credible(c.state) { 1int } else { 0 }),
        credible_count(claims) >= 0,
    decreases claims.len(),
{
    let updated = claims.update(i, c);
    if i == claims.len() - 1 {
        assert(updated.drop_last() =~= claims.drop_last());
        lemma_credible_nonneg(claims.drop_last());
    } else {
        lemma_credible_count_update(claims.drop_last(), i, c);
        assert(updated.drop_last() =~= claims.drop_last().update(i, c));
    }
}

pub proof fn lemma_credible_nonneg(claims: Seq<RoleClaim>)
    ensures
        credible_count(claims) >= 0,
    decreases claims.len(),
{
    if claims.len() > 0 {
        lemma_credible_nonneg(claims.drop_last());
    }
}

pub proof fn lemma_total_nonneg(classes: Seq<PageClassification>)
    ensures
        credible_total(classes) >= 0,
    decreases classes.len(),
{
    if classes.len() > 0 {
        lemma_total_nonneg(classes.drop_last());
        lemma_credible_nonneg(classes.last().claims@);
    }
}

/// Replacing one page's claims changes the total by the change in its count.
pub proof fn lemma_total_update(classes: Seq<PageClassification>, n: int, c: PageClassification)
    requires
        0 <= n < classes.len(),
    ensures
        credible_total(classes.update(n, c)) == credible_total(classes) - credible_count(classes[n].claims@) + credible_count(c.claims@),
    decreases classes.len(),
{
    let updated = classes.update(n, c);
    if n == classes.len() - 1 {
        assert(updated.drop_last() =~= classes.drop_last());
    } else {
        lemma_total_update(classes.drop_last(), n, c);
        assert(updated.drop_last() =~= classes.drop_last().update(n, c));
    }
}

/// The role source page `s` has while the supports are `support`; pages
/// outside the inventory have no role.
pub open spec fn source_role(support: Seq<RoleSupport>, s: u32) -> PageRole {
    if 1 <= s <= support.len() {
        spec_physical(support[s - 1].counts@)
    } else {
        PageRole::Unknown
    }
}

/// Dependency `d` still holds: its claim was withdrawn, or its source has a
/// role it accepts.
pub open spec fn dependency_holds(d: Dependency, classes: Seq<PageClassification>, role: PageRole) -> bool {
    !spec_credible(classes[d.page as int].claims@[d.index as int].state) || d.requirement.spec_accepts(role)
}

/// Every dependency on source entry `o` holds.
pub open spec fn source_settled(o: Outgoing, classes: Seq<PageClassification>, support: Seq<RoleSupport>) -> bool {
    forall|j: int| 0 <= j < o.dependencies@.len() ==> dependency_holds(#[trigger] o.dependencies@[j], classes, source_role(support, o.source))
}

pub open spec fn pending(queue: Seq<u32>, front: int, s: u32) -> bool {
    exists|t: int| front <= t < queue.len() && queue[t] == s
}

/// `b` is the classification `a` with some credible claims withdrawn.
pub open spec fn classes_withdrawn(a: Seq<PageClassification>, b: Seq<PageClassification>) -> bool {
    &&& a.len() == b.len()
    &&& forall|n: int| 0 <= n < a.len() ==> {
        &&& (#[trigger] b[n]).role == a[n].role
        &&& b[n].referenced == a[n].referenced
        &&& b[n].reconciled == a[n].reconciled
        &&& b[n].claims@.len() == a[n].claims@.len()
        &&& forall|i: int| 0 <= i < a[n].claims@.len() ==> #[trigger] b[n].claims@[i] == a[n].claims@[i]
            || (spec_credible(a[n].claims@[i].state) && b[n].claims@[i] == withdrawn_role_claim(a[n].claims@[i]))
    }
}

pub open spec fn has_source(outgoing: Seq<Outgoing>, s: u32) -> bool {
    exists|k: int| 0 <= k < outgoing.len() && (#[trigger] outgoing[k]).source == s
}

fn find_source(outgoing: &Vec<Outgoing>, s: u32) -> (r: Option<usize>)
    ensures
        r matches Some(k) ==> k < outgoing@.len() && outgoing@[k as int].source == s,
        r is None ==> !has_source(outgoing@, s),
{
    let mut k: usize = 0;
    while k < outgoing.len()
        invariant
            k <= outgoing@.len(),
            forall|j: int| 0 <= j < k ==> (#[trigger] outgoing@[j]).source != s,
        decreases outgoing@.len() - k,
    {
        if outgoing[k].source == s {
            return Some(k);
        }
        k = k + 1;
    }
    None
}

/// The work queue of role propagation: sources still to be checked, each at
/// most once, with `queued` marking the inventoried ones.
pub open spec fn queue_ok(queue: Seq<u32>, front: int, queued: Seq<bool>, outgoing: Seq<Outgoing>, n_pages: int) -> bool {
    &&& 0 <= front <= queue.len()
    &&& forall|t1: int, t2: int| front <= t1 < t2 < queue.len() ==> #[trigger] queue[t1] != #[trigger] queue[t2]
    &&& queued.len() == n_pages
    &&& forall|n: int| 0 <= n < n_pages ==> (#[trigger] queued[n] <==> pending(queue, front, (n + 1) as u32))
    &&& forall|t: int| front <= t < queue.len() ==> has_source(outgoing, #[trigger] queue[t])
}

/// Every source is settled or still waits in the queue.
pub open spec fn settled_or_pending(outgoing: Seq<Outgoing>, classes: Seq<PageClassification>, support: Seq<RoleSupport>, queue: Seq<u32>, front: int) -> bool {
    forall|k: int| 0 <= k < outgoing.len() ==> pending(queue, front, (#[trigger] outgoing[k]).source) || source_settled(outgoing[k], classes, support)
}

pub open spec fn supported(support: Seq<RoleSupport>, classes: Seq<PageClassification>) -> bool {
    &&& support.len() == classes.len()
    &&& forall|n: int| 0 <= n < classes.len() ==> (#[trigger] support[n]).supports(classes[n].claims@)
}

pub open spec fn dependencies_valid(outgoing: Seq<Outgoing>, classes: Seq<PageClassification>, claims_len: int, maps: Option<PointerMapEvidence>) -> bool {
    forall|k: int, j: int| 0 <= k < outgoing.len() && 0 <= j < outgoing[k].dependencies@.len()
        ==> dependency_valid(#[trigger] outgoing[k].dependencies@[j], classes, claims_len, maps)
}

/// The queue of every source, in order.
fn initial_queue(outgoing: &Vec<Outgoing>, n_pages: usize, control: &mut WorkControl) -> (r: Option<(Vec<u32>, Vec<bool>)>)
    requires
        n_pages <= u32::MAX,
        forall|i: int, j: int| 0 <= i < j < outgoing@.len() ==> (#[trigger] outgoing@[i]).source < (#[trigger] outgoing@[j]).source,
    ensures
        control_kept(*old(control), *final(control)),
        r is None ==> final(control).is_stopped(),
        r matches Some((queue, queued)) ==> queue_ok(queue@, 0, queued@, outgoing@, n_pages as int)
            && forall|k: int| 0 <= k < outgoing@.len() ==> pending(queue@, 0, (#[trigger] outgoing@[k]).source),
{
    let mut queued: Vec<bool> = Vec::new();
    let mut n: usize = 0;
    while n < n_pages
        invariant
            n <= n_pages,
            queued@.len() == n,
            forall|m: int| 0 <= m < n ==> !(#[trigger] queued@[m]),
        decreases n_pages - n,
    {
        queued.push(false);
        n = n + 1;
    }
    let mut queue: Vec<u32> = Vec::new();
    let mut k: usize = 0;
    while k < outgoing.len()
        invariant
            k <= outgoing@.len(),
            n_pages <= u32::MAX,
            forall|i: int, j: int| 0 <= i < j < outgoing@.len() ==> (#[trigger] outgoing@[i]).source < (#[trigger] outgoing@[j]).source,
            queue@.len() == k,
            forall|t: int| 0 <= t < k ==> #[trigger] queue@[t] == outgoing@[t].source,
            queued@.len() == n_pages,
            forall|m: int| 0 <= m < n_pages ==> (#[trigger] queued@[m] <==> pending(queue@, 0, (m + 1) as u32)),
            control_kept(*old(control), *control),
        decreases outgoing@.len() - k,
    {
        if !checkpoint(control) {
            return None;
        }
        let source = outgoing[k].source;
        let ghost before = queue@;
        queue.push(source);
        if 1 <= source && (source as usize) <= n_pages {
            queued.set((source - 1) as usize, true);
        }
        proof {
            assert forall|m: int| 0 <= m < n_pages implies (#[trigger] queued@[m] <==> pending(queue@, 0, (m + 1) as u32)) by {
                if pending(before, 0, (m + 1) as u32) {
                    let t = choose|t: int| 0 <= t < before.len() && before[t] == (m + 1) as u32;
                    assert(queue@[t] == before[t]);
                }
                if pending(queue@, 0, (m + 1) as u32) {
                    let t = choose|t: int| 0 <= t < queue@.len() && queue@[t] == (m + 1) as u32;
                    if t < k {
                        assert(before[t] == queue@[t]);
                    }
                }
                if (m + 1) as u32 == source {
                    assert(queue@[k as int] == source);
                }
            }
        }
        k = k + 1;
    }
    proof {
        assert forall|t1: int, t2: int| 0 <= t1 < t2 < queue@.len() implies #[trigger] queue@[t1] != #[trigger] queue@[t2] by {
            assert(outgoing@[t1].source < outgoing@[t2].source);
        }
        assert forall|t: int| 0 <= t < queue@.len() implies has_source(outgoing@, #[trigger] queue@[t]) by {
            assert(outgoing@[t].source == queue@[t]);
        }
        assert forall|kk: int| 0 <= kk < outgoing@.len() implies pending(queue@, 0, (#[trigger] outgoing@[kk]).source) by {
            assert(queue@[kk] == outgoing@[kk].source);
        }
    }
    Some((queue, queued))
}

impl Dependencies {
    /// Withdraws, until nothing changes, every credible dependent claim whose
    /// source page no longer has a role that the claim needs. Support only
    /// decreases; a source is checked again whenever its role changes.
    /// Returns false when a stop ends the work.
    pub fn propagate(&mut self, classes: &mut Vec<PageClassification>, topology: &mut Topology, control: &mut WorkControl) -> (r: bool)
        requires
            old(classes)@.len() <= u32::MAX,
            supported(old(self).support@, old(classes)@),
            dependencies_valid(old(self).outgoing@, old(classes)@, old(topology).claims@.len() as int, old(topology).pointer_map),
            forall|i: int, j: int| 0 <= i < j < old(self).outgoing@.len() ==> (#[trigger] old(self).outgoing@[i]).source < (#[trigger] old(self).outgoing@[j]).source,
        ensures
            control_kept(*old(control), *final(control)),
            !r ==> final(control).is_stopped(),
            final(self).outgoing@ == old(self).outgoing@,
            supported(final(self).support@, final(classes)@),
            classes_withdrawn(old(classes)@, final(classes)@),
            topology_withdrawn(*old(topology), *final(topology)),
            r ==> forall|k: int| 0 <= k < final(self).outgoing@.len() ==> source_settled(#[trigger] final(self).outgoing@[k], final(classes)@, final(self).support@),
    {
        let n_pages = classes.len();
        let (mut queue, mut queued) = match initial_queue(&self.outgoing, n_pages, control) {
            Some(q) => q,
            None => return false,
        };
        let mut front: usize = 0;
        proof {
            assert(classes_withdrawn(old(classes)@, classes@)) by {
                assert forall|n: int| 0 <= n < old(classes)@.len() implies {
                    &&& (#[trigger] classes@[n]).role == old(classes)@[n].role
                    &&& classes@[n].referenced == old(classes)@[n].referenced
                    &&& classes@[n].reconciled == old(classes)@[n].reconciled
                    &&& classes@[n].claims@.len() == old(classes)@[n].claims@.len()
                    &&& forall|i: int| 0 <= i < old(classes)@[n].claims@.len() ==> #[trigger] classes@[n].claims@[i] == old(classes)@[n].claims@[i]
                        || (spec_credible(old(classes)@[n].claims@[i].state) && classes@[n].claims@[i] == withdrawn_role_claim(old(classes)@[n].claims@[i]))
                } by {}
            }
            assert(topology_withdrawn(*old(topology), *topology)) by {
                match topology.pointer_map {
                    Some(x) => {
                        assert forall|m: int| 0 <= m < x.pages@.len() implies {
                            &&& (#[trigger] x.pages@[m]).page == x.pages@[m].page
                            &&& x.pages@[m].complete == x.pages@[m].complete
                            &&& x.pages@[m].diagnostics@ == x.pages@[m].diagnostics@
                            &&& x.pages@[m].entries@.len() == x.pages@[m].entries@.len()
                            &&& forall|q: int| 0 <= q < x.pages@[m].entries@.len() ==> entry_withdrawn(#[trigger] x.pages@[m].entries@[q], x.pages@[m].entries@[q])
                        } by {}
                    },
                    None => {},
                }
            }
            lemma_total_nonneg(classes@);
        }
        while front < queue.len()
            invariant
                n_pages == classes@.len(),
                n_pages <= u32::MAX,
                self.outgoing@ == old(self).outgoing@,
                dependencies_valid(old(self).outgoing@, old(classes)@, old(topology).claims@.len() as int, old(topology).pointer_map),
                supported(self.support@, classes@),
                classes_withdrawn(old(classes)@, classes@),
                topology_withdrawn(*old(topology), *topology),
                queue_ok(queue@, front as int, queued@, self.outgoing@, n_pages as int),
                settled_or_pending(self.outgoing@, classes@, self.support@, queue@, front as int),
                forall|i: int, j: int| 0 <= i < j < old(self).outgoing@.len() ==> (#[trigger] old(self).outgoing@[i]).source < (#[trigger] old(self).outgoing@[j]).source,
                control_kept(*old(control), *control),
            decreases credible_total(classes@) + queue@.len() - front,
        {
            let source = queue[front];
            let ghost popped_from = front as int;
            let ghost start = credible_total(classes@) + queue@.len() - front;
            front = front + 1;
            proof {
                lemma_total_nonneg(classes@);
                assert(!pending(queue@, front as int, source)) by {
                    if pending(queue@, front as int, source) {
                        let t = choose|t: int| front <= t < queue@.len() && queue@[t] == source;
                        assert(queue@[popped_from] != queue@[t]);
                    }
                }
            }
            if !checkpoint(control) {
                return false;
            }
            if 1 <= source && (source as usize) <= n_pages {
                queued.set((source - 1) as usize, false);
            }
            proof {
                assert forall|n: int| 0 <= n < n_pages implies (#[trigger] queued@[n] <==> pending(queue@, front as int, (n + 1) as u32)) by {
                    if (n + 1) as u32 != source {
                        if pending(queue@, popped_from, (n + 1) as u32) {
                            let t = choose|t: int| popped_from <= t < queue@.len() && queue@[t] == (n + 1) as u32;
                            assert(t != popped_from);
                        }
                    }
                }
                assert forall|k: int| 0 <= k < self.outgoing@.len() && (#[trigger] self.outgoing@[k]).source != source
                    implies pending(queue@, front as int, self.outgoing@[k].source) || source_settled(self.outgoing@[k], classes@, self.support@) by {
                    if pending(queue@, popped_from, self.outgoing@[k].source) {
                        let t = choose|t: int| popped_from <= t < queue@.len() && queue@[t] == self.outgoing@[k].source;
                        assert(t != popped_from);
                    }
                }
            }
            let role = if 1 <= source && (source as usize) <= n_pages {
                self.support[(source - 1) as usize].physical()
            } else {
                PageRole::Unknown
            };
            let k = match find_source(&self.outgoing, source) {
                Some(k) => k,
                None => {
                    assert(has_source(self.outgoing@, queue@[popped_from]));
                    return false;
                },
            };
            let ghost bound = credible_total(classes@) + queue@.len();
            assert(bound - popped_from == start);
            let mut j: usize = 0;
            while j < self.outgoing[k].dependencies.len()
                invariant
                    n_pages == classes@.len(),
                    n_pages <= u32::MAX,
                    k < self.outgoing@.len(),
                    self.outgoing@[k as int].source == source,
                    self.outgoing@ == old(self).outgoing@,
                    dependencies_valid(old(self).outgoing@, old(classes)@, old(topology).claims@.len() as int, old(topology).pointer_map),
                    supported(self.support@, classes@),
                    classes_withdrawn(old(classes)@, classes@),
                    topology_withdrawn(*old(topology), *topology),
                    queue_ok(queue@, front as int, queued@, self.outgoing@, n_pages as int),
                    1 <= source <= n_pages ==> !queued@[source - 1] || pending(queue@, front as int, source),
                    forall|kk: int| 0 <= kk < self.outgoing@.len() && (#[trigger] self.outgoing@[kk]).source != source
                        ==> pending(queue@, front as int, self.outgoing@[kk].source) || source_settled(self.outgoing@[kk], classes@, self.support@),
                    pending(queue@, front as int, source) || (source_role(self.support@, source) == role
                        && forall|jj: int| 0 <= jj < j ==> dependency_holds(#[trigger] self.outgoing@[k as int].dependencies@[jj], classes@, role)),
                    j <= self.outgoing@[k as int].dependencies@.len(),
                    credible_total(classes@) + queue@.len() <= bound,
                    control_kept(*old(control), *control),
                decreases self.outgoing@[k as int].dependencies@.len() - j,
            {
                if !checkpoint(control) {
                    return false;
                }
                let d = self.outgoing[k].dependencies[j];
                proof {
                    assert(dependency_valid(old(self).outgoing@[k as int].dependencies@[j as int], old(classes)@, old(topology).claims@.len() as int, old(topology).pointer_map));
                }
                let claim = classes[d.page].claims[d.index];
                if d.requirement.accepts(role) || !credible(claim.state) {
                    j = j + 1;
                    continue;
                }
                let previous = self.support[d.page].physical();
                let ghost classes_before = classes@;
                let ghost support_before = self.support@;
                let ghost queue_before = queue@;
                let ghost queued_before = queued@;
                self.support[d.page].remove(&claim, Ghost(classes@[d.page as int].claims@), Ghost(d.index as int));
                let withdrawn = RoleClaim {
                    state: RelationshipState::Unresolved,
                    relationship_stop: Some(TraversalStopReason::ConflictingClaim),
                    ..claim
                };
                classes[d.page].claims.set(d.index, withdrawn);
                let ghost topology_before = *topology;
                proof {
                    assert(topology_withdrawn(*old(topology), topology_before));
                }
                invalidate_dependency(d, topology);
                proof {
                    lemma_topology_withdrawn_chain(*old(topology), topology_before, *topology);
                }
                let now = self.support[d.page].physical();
                let target = (d.page + 1) as u32;
                let mut pushed = false;
                if previous != now {
                    if let Some(_) = find_source(&self.outgoing, target) {
                        if !queued[d.page] {
                            queued.set(d.page, true);
                            queue.push(target);
                            pushed = true;
                        }
                    }
                }
                proof {
                    let p0 = d.page as int;
                    let i0 = d.index as int;
                    // Counting: the withdrawn claim was credible.
                    lemma_credible_count_update(classes_before[p0].claims@, i0, withdrawn);
                    lemma_total_update(classes_before, p0, classes@[p0]);
                    assert(classes@ =~= classes_before.update(p0, classes@[p0]));
                    // The classifications are withdrawn from the original ones.
                    assert forall|n: int| 0 <= n < old(classes)@.len() implies {
                        &&& (#[trigger] classes@[n]).role == old(classes)@[n].role
                        &&& classes@[n].referenced == old(classes)@[n].referenced
                        &&& classes@[n].reconciled == old(classes)@[n].reconciled
                        &&& classes@[n].claims@.len() == old(classes)@[n].claims@.len()
                        &&& forall|i: int| 0 <= i < old(classes)@[n].claims@.len() ==> #[trigger] classes@[n].claims@[i] == old(classes)@[n].claims@[i]
                            || (spec_credible(old(classes)@[n].claims@[i].state) && classes@[n].claims@[i] == withdrawn_role_claim(old(classes)@[n].claims@[i]))
                    } by {
                        if n == p0 {
                            assert forall|i: int| 0 <= i < old(classes)@[n].claims@.len() implies #[trigger] classes@[n].claims@[i] == old(classes)@[n].claims@[i]
                                || (spec_credible(old(classes)@[n].claims@[i].state) && classes@[n].claims@[i] == withdrawn_role_claim(old(classes)@[n].claims@[i])) by {
                                if i == i0 {
                                    assert(classes_before[n].claims@[i] == old(classes)@[n].claims@[i]);
                                } else {
                                    assert(classes@[n].claims@[i] == classes_before[n].claims@[i]);
                                }
                            }
                        } else {
                            assert(classes@[n] == classes_before[n]);
                        }
                    }
                    // Supports match the claims.
                    assert forall|n: int| 0 <= n < classes@.len() implies (#[trigger] self.support@[n]).supports(classes@[n].claims@) by {
                        if n != p0 {
                            assert(self.support@[n] == support_before[n]);
                            assert(classes@[n] == classes_before[n]);
                        } else {
                            assert(classes@[n].claims@ == classes_before[n].claims@.update(i0, withdrawn));
                        }
                    }
                    // Roles of sources other than the target page are unchanged.
                    assert forall|t: u32| t != target implies #[trigger] source_role(self.support@, t) == source_role(support_before, t) by {
                        if 1 <= t <= self.support@.len() {
                            assert(self.support@[t - 1] == support_before[t - 1]);
                        }
                    }
                    assert(previous == now ==> source_role(self.support@, target) == source_role(support_before, target));
                    // Holding dependencies keep holding, unless the target's role moved.
                    assert forall|dd: Dependency, r0: PageRole| dd.page < classes@.len() && dd.index < classes@[dd.page as int].claims@.len()
                        && #[trigger] dependency_holds(dd, classes_before, r0) implies dependency_holds(dd, classes@, r0) by {
                        if dd.page as int == p0 && dd.index as int == i0 {
                        } else if dd.page as int == p0 {
                            assert(classes@[p0].claims@[dd.index as int] == classes_before[p0].claims@[dd.index as int]);
                        } else {
                            assert(classes@[dd.page as int] == classes_before[dd.page as int]);
                        }
                    }
                    // The queue.
                    if pushed {
                        assert(!pending(queue_before, front as int, target));
                        assert forall|t1: int, t2: int| front <= t1 < t2 < queue@.len() implies #[trigger] queue@[t1] != #[trigger] queue@[t2] by {
                            if t2 == queue@.len() - 1 {
                                if t1 < queue_before.len() {
                                    assert(queue@[t1] == queue_before[t1]);
                                }
                            } else {
                                assert(queue@[t1] == queue_before[t1] && queue@[t2] == queue_before[t2]);
                            }
                        }
                        assert forall|t: u32| #[trigger] pending(queue_before, front as int, t) implies pending(queue@, front as int, t) by {
                            let w = choose|w: int| front <= w < queue_before.len() && queue_before[w] == t;
                            assert(queue@[w] == queue_before[w]);
                        }
                        assert(pending(queue@, front as int, target)) by {
                            assert(queue@[queue@.len() - 1] == target);
                        }
                        assert forall|n: int| 0 <= n < n_pages implies (#[trigger] queued@[n] <==> pending(queue@, front as int, (n + 1) as u32)) by {
                            if n != p0 {
                                assert(queued@[n] == queued_before[n]);
                                if pending(queue@, front as int, (n + 1) as u32) {
                                    let w = choose|w: int| front <= w < queue@.len() && queue@[w] == (n + 1) as u32;
                                    if w < queue_before.len() {
                                        assert(queue_before[w] == queue@[w]);
                                    } else {
                                        assert(queue@[w] == target);
                                    }
                                }
                            }
                        }
                        assert forall|t: int| front <= t < queue@.len() implies has_source(self.outgoing@, #[trigger] queue@[t]) by {
                            if t < queue_before.len() {
                                assert(queue@[t] == queue_before[t]);
                            }
                        }
                    } else {
                        assert(queue@ == queue_before);
                        assert(queued@ == queued_before);
                    }
                    // Sources other than the one being checked stay settled or pending.
                    assert forall|kk: int| 0 <= kk < self.outgoing@.len() && (#[trigger] self.outgoing@[kk]).source != source
                        implies pending(queue@, front as int, self.outgoing@[kk].source) || source_settled(self.outgoing@[kk], classes@, self.support@) by {
                        let o = self.outgoing@[kk];
                        if pending(queue_before, front as int, o.source) {
                            if pushed {
                                let w = choose|w: int| front <= w < queue_before.len() && queue_before[w] == o.source;
                                assert(queue@[w] == queue_before[w]);
                            }
                        } else if o.source == target && previous != now {
                            assert(has_source(self.outgoing@, target));
                            if !pushed {
                                assert(queued_before[p0]);
                            }
                        } else {
                            assert(source_settled(o, classes_before, support_before));
                            assert(source_role(self.support@, o.source) == source_role(support_before, o.source));
                            assert forall|jj: int| 0 <= jj < o.dependencies@.len() implies dependency_holds(#[trigger] o.dependencies@[jj], classes@, source_role(self.support@, o.source)) by {
                                assert(dependency_valid(old(self).outgoing@[kk].dependencies@[jj], old(classes)@, old(topology).claims@.len() as int, old(topology).pointer_map));
                                assert(dependency_holds(o.dependencies@[jj], classes_before, source_role(support_before, o.source)));
                            }
                        }
                    }
                    // The source being checked.
                    if !pending(queue@, front as int, source) {
                        if source == target && previous != now {
                            assert(has_source(self.outgoing@, target));
                            if !pushed {
                                assert(queued_before[p0]);
                            }
                        }
                        assert(source_role(self.support@, source) == source_role(support_before, source));
                        assert(!pending(queue_before, front as int, source)) by {
                            if pending(queue_before, front as int, source) {
                                let w = choose|w: int| front <= w < queue_before.len() && queue_before[w] == source;
                                if pushed {
                                    assert(queue@[w] == queue_before[w]);
                                }
                            }
                        }
                        assert forall|jj: int| 0 <= jj < j + 1 implies dependency_holds(#[trigger] self.outgoing@[k as int].dependencies@[jj], classes@, role) by {
                            assert(dependency_valid(old(self).outgoing@[k as int].dependencies@[jj], old(classes)@, old(topology).claims@.len() as int, old(topology).pointer_map));
                            if jj < j {
                                assert(dependency_holds(self.outgoing@[k as int].dependencies@[jj], classes_before, role));
                            } else {
                                assert(!spec_credible(classes@[p0].claims@[i0].state));
                            }
                        }
                    }
                    if 1 <= source <= n_pages && queued@[source - 1] {
                        assert(pending(queue@, front as int, source));
                    }
                }
                j = j + 1;
            }
            proof {
                lemma_total_nonneg(classes@);
                assert(credible_total(classes@) + queue@.len() - front < start);
                assert forall|kk: int| 0 <= kk < self.outgoing@.len() implies pending(queue@, front as int, (#[trigger] self.outgoing@[kk]).source)
                    || source_settled(self.outgoing@[kk], classes@, self.support@) by {
                    if self.outgoing@[kk].source == source {
                        assert(credible_total(classes@) + queue@.len() - front < start);
                        assert(kk == k) by {
                            if kk != k {
                                if kk < k { assert(self.outgoing@[kk].source < self.outgoing@[k as int].source); }
                                else { assert(self.outgoing@[k as int].source < self.outgoing@[kk].source); }
                            }
                        }
                    }
                }
            }
        }
        proof {
            assert forall|kk: int| 0 <= kk < self.outgoing@.len() implies source_settled(#[trigger] self.outgoing@[kk], classes@, self.support@) by {
                if pending(queue@, front as int, self.outgoing@[kk].source) {
                    let t = choose|t: int| front <= t < queue@.len() && queue@[t] == self.outgoing@[kk].source;
                }
            }
        }
        true
    }
}

/// Whether a validated claim has identity `id`.
pub open spec fn validated_id(claims: Seq<RelationshipClaim>, id: ClaimId) -> bool {
    exists|i: int| 0 <= i < claims.len() && (#[trigger] claims[i]).state == RelationshipState::Validated && claims[i].id == id
}

/// The relationships whose claims are still validated, in order.
pub open spec fn kept_relationships(relationships: Seq<Relationship>, claims: Seq<RelationshipClaim>) -> Seq<Relationship>
    decreases relationships.len(),
{
    if relationships.len() == 0 {
        seq![]
    } else {
        kept_relationships(relationships.drop_last(), claims) + if validated_id(claims, relationships.last().claim_id) {
            seq![relationships.last()]
        } else {
            seq![]
        }
    }
}

/// The first relationship that claims a role for a page.
pub open spec fn first_relationship_id(claims: Seq<RoleClaim>) -> Option<ClaimId>
    decreases claims.len(),
{
    if claims.len() == 0 {
        None
    } else {
        match claims[0].relationship_id {
            Some(id) => Some(id),
            None => first_relationship_id(claims.drop_first()),
        }
    }
}

/// A traversal from a cell whose first link no longer validates stops at once.
pub open spec fn cell_checked(t: TraversalView, claims: Seq<RelationshipClaim>) -> TraversalView {
    match t.origin {
        EntityIdentity::Cell { page_number, cell_index } => {
            let id = ClaimId::OverflowCell { page_number, cell_index };
            if t.validated_prefix.len() > 0 && !validated_id(claims, id) {
                TraversalView {
                    validated_prefix: seq![],
                    stop: Some(TraversalStop {
                        reason: TraversalStopReason::ConflictingClaim,
                        claim_id: id,
                        intended_target: Some(t.validated_prefix[0]),
                    }),
                    ..t
                }
            } else {
                t
            }
        },
        EntityIdentity::Page { .. } => t,
    }
}

/// Whether position `pos` of a prefix is a page that is itself the origin
/// of the traversal and whose own bytes do not conflict.
pub open spec fn independent_origin(prefix: Seq<PageIdentity>, origin: EntityIdentity, physical: Seq<bool>, pos: int) -> bool {
    let index = prefix[pos].page_number - 1;
    &&& pos == 0
    &&& 0 <= index < physical.len()
    &&& !physical[index]
    &&& origin == EntityIdentity::Page { page_number: prefix[pos].page_number }
}

/// Every page of `prefix` from `pos` on is inventoried.
pub open spec fn inventoried_from(prefix: Seq<PageIdentity>, classes_len: int, pos: int) -> bool {
    forall|q: int| pos <= q < prefix.len() ==> 1 <= (#[trigger] prefix[q]).page_number <= classes_len
}

/// The first position from `pos` on where a traversal meets a conflicting page.
pub open spec fn boundary_from(prefix: Seq<PageIdentity>, origin: EntityIdentity, classes: Seq<PageClassification>, physical: Seq<bool>, pos: int) -> Option<int>
    decreases prefix.len() - pos,
{
    if pos < 0 || pos >= prefix.len() {
        None
    } else if classes[prefix[pos].page_number - 1].role == PageRole::Conflicting && !independent_origin(prefix, origin, physical, pos) {
        Some(pos)
    } else {
        boundary_from(prefix, origin, classes, physical, pos + 1)
    }
}

/// A traversal after role conflicts are contained: it stops before the first
/// conflicting page it would otherwise pass through.
pub open spec fn normalized_traversal(t: TraversalView, claims: Seq<RelationshipClaim>, classes: Seq<PageClassification>, physical: Seq<bool>) -> TraversalView {
    let c = cell_checked(t, claims);
    match boundary_from(c.validated_prefix, c.origin, classes, physical, 0) {
        None => c,
        Some(pos) => {
            let target = c.validated_prefix[pos];
            TraversalView {
                validated_prefix: c.validated_prefix.subrange(0, pos),
                stop: Some(TraversalStop {
                    reason: TraversalStopReason::ConflictingClaim,
                    claim_id: match first_relationship_id(classes[target.page_number - 1].claims@) {
                        Some(id) => id,
                        None => ClaimId::RolePage { page_number: target.page_number },
                    },
                    intended_target: Some(target),
                }),
                ..c
            }
        },
    }
}

/// Whether a validated claim has identity `id`.
fn has_validated_id(claims: &Vec<RelationshipClaim>, id: ClaimId) -> (r: bool)
    ensures
        r == validated_id(claims@, id),
{
    let mut i: usize = 0;
    while i < claims.len()
        invariant
            i <= claims@.len(),
            forall|j: int| 0 <= j < i ==> !((#[trigger] claims@[j]).state == RelationshipState::Validated && claims@[j].id == id),
        decreases claims@.len() - i,
    {
        if claims[i].state == RelationshipState::Validated && claims[i].id == id {
            return true;
        }
        i = i + 1;
    }
    false
}

fn first_relationship(claims: &Vec<RoleClaim>) -> (r: Option<ClaimId>)
    ensures
        r == first_relationship_id(claims@),
{
    let mut k: usize = 0;
    assert(claims@.subrange(0, claims@.len() as int) =~= claims@);
    while k < claims.len()
        invariant
            k <= claims@.len(),
            first_relationship_id(claims@) == first_relationship_id(claims@.subrange(k as int, claims@.len() as int)),
        decreases claims@.len() - k,
    {
        let ghost rest = claims@.subrange(k as int, claims@.len() as int);
        assert(rest.drop_first() =~= claims@.subrange(k + 1, claims@.len() as int));
        assert(rest[0] == claims@[k as int]);
        if let Some(id) = claims[k].relationship_id {
            return Some(id);
        }
        k = k + 1;
    }
    None
}

pub(crate) fn copy_prefix(prefix: &Vec<PageIdentity>, end: usize) -> (r: Vec<PageIdentity>)
    requires
        end <= prefix@.len(),
    ensures
        r@ == prefix@.subrange(0, end as int),
{
    let mut r: Vec<PageIdentity> = Vec::new();
    let mut k: usize = 0;
    while k < end
        invariant
            k <= end <= prefix@.len(),
            r@ == prefix@.subrange(0, k as int),
        decreases end - k,
    {
        r.push(prefix[k]);
        assert(r@ =~= prefix@.subrange(0, k + 1));
        k = k + 1;
    }
    r
}

/// Contains one traversal: `None` when a page of it is not inventoried, or on a stop.
fn normalize_traversal(t: &Traversal, claims: &Vec<RelationshipClaim>, classes: &Vec<PageClassification>, physical: &Vec<bool>, control: &mut WorkControl) -> (r: Option<Traversal>)
    ensures
        control_kept(*old(control), *final(control)),
        r matches Some(n) ==> n@ == normalized_traversal(t@, claims@, classes@, physical@),
        r is None ==> final(control).is_stopped() || !inventoried_from(cell_checked(t@, claims@).validated_prefix, classes@.len() as int, 0),
{
    let mut prefix = copy_prefix(&t.validated_prefix, t.validated_prefix.len());
    assert(prefix@ =~= t@.validated_prefix);
    let mut stop = t.stop;
    match t.origin {
        EntityIdentity::Cell { page_number, cell_index } => {
            let id = ClaimId::OverflowCell { page_number, cell_index };
            if prefix.len() > 0 && !has_validated_id(claims, id) {
                let first = prefix[0];
                prefix = Vec::new();
                stop = Some(TraversalStop { reason: TraversalStopReason::ConflictingClaim, claim_id: id, intended_target: Some(first) });
            }
        },
        EntityIdentity::Page { .. } => {},
    }
    let ghost c = cell_checked(t@, claims@);
    assert(prefix@ =~= c.validated_prefix);
    assert(stop == c.stop);
    let mut pos: usize = 0;
    while pos < prefix.len()
        invariant
            pos <= prefix@.len(),
            prefix@ == c.validated_prefix,
            c == cell_checked(t@, claims@),
            boundary_from(prefix@, t.origin, classes@, physical@, 0) == boundary_from(prefix@, t.origin, classes@, physical@, pos as int),
            inventoried_from(prefix@, classes@.len() as int, 0) == (inventoried_from(prefix@, classes@.len() as int, pos as int)
                && forall|q: int| 0 <= q < pos ==> 1 <= (#[trigger] prefix@[q]).page_number <= classes@.len()),
            forall|q: int| 0 <= q < pos ==> 1 <= (#[trigger] prefix@[q]).page_number <= classes@.len(),
            control_kept(*old(control), *control),
        decreases prefix@.len() - pos,
    {
        if !checkpoint(control) {
            return None;
        }
        let page = prefix[pos];
        if page.page_number == 0 || (page.page_number - 1) as usize >= classes.len() {
            return None;
        }
        let index = (page.page_number - 1) as usize;
        let origin_match = match t.origin {
            EntityIdentity::Page { page_number } => page_number == page.page_number,
            EntityIdentity::Cell { .. } => false,
        };
        let independent = pos == 0 && index < physical.len() && !physical[index] && origin_match;
        assert(independent == independent_origin(prefix@, t.origin, physical@, pos as int));
        if classes[index].role == PageRole::Conflicting && !independent {
            let target = page;
            let claim_id = match first_relationship(&classes[index].claims) {
                Some(id) => id,
                None => ClaimId::RolePage { page_number: target.page_number },
            };
            prefix.truncate(pos);
            let result = Traversal {
                kind: t.kind,
                origin: t.origin,
                validated_prefix: prefix,
                stop: Some(TraversalStop { reason: TraversalStopReason::ConflictingClaim, claim_id, intended_target: Some(target) }),
            };
            assert(result@.validated_prefix =~= c.validated_prefix.subrange(0, pos as int));
            return Some(result);
        }
        pos = pos + 1;
    }
    let result = Traversal { kind: t.kind, origin: t.origin, validated_prefix: prefix, stop };
    assert(result@ == c);
    Some(result)
}

/// Some traversal, with its overflow origin checked against `claims`, passes
/// a page beyond the first `n` inventoried pages.
pub open spec fn passes_uninventoried(traversals: Seq<Traversal>, claims: Seq<RelationshipClaim>, n: int) -> bool {
    exists|k: int| 0 <= k < traversals.len() && !inventoried_from(cell_checked((#[trigger] traversals[k])@, claims).validated_prefix, n, 0)
}

/// Drops the relationships whose claims no longer validate, and stops each
/// traversal before the first conflicting page it would pass through.
/// Returns false on a stop, or when a traversal passes an uninventoried page.
pub fn normalize_after_conflicts(classes: &Vec<PageClassification>, physical: &Vec<bool>, topology: &mut Topology, control: &mut WorkControl) -> (r: bool)
    ensures
        control_kept(*old(control), *final(control)),
        final(topology).claims@ == old(topology).claims@,
        final(topology).freelist == old(topology).freelist,
        final(topology).diagnostics@ == old(topology).diagnostics@,
        final(topology).coverage == old(topology).coverage,
        final(topology).pointer_map == old(topology).pointer_map,
        final(topology).classifications@ == old(topology).classifications@,
        r ==> final(topology).relationships@ == kept_relationships(old(topology).relationships@, old(topology).claims@),
        r ==> final(topology).traversals@.len() == old(topology).traversals@.len(),
        r ==> forall|k: int| 0 <= k < old(topology).traversals@.len() ==> (#[trigger] final(topology).traversals@[k])@
            == normalized_traversal(old(topology).traversals@[k]@, old(topology).claims@, classes@, physical@),
        !r ==> final(control).is_stopped() || passes_uninventoried(old(topology).traversals@, old(topology).claims@, classes@.len() as int),
{
    let mut relationships: Vec<Relationship> = Vec::new();
    std::mem::swap(&mut relationships, &mut topology.relationships);
    let ghost old_relationships = relationships@;
    let mut kept: Vec<Relationship> = Vec::new();
    let mut i: usize = 0;
    while i < relationships.len()
        invariant
            i <= relationships@.len(),
            relationships@ == old_relationships,
            old_relationships == old(topology).relationships@,
            topology.claims@ == old(topology).claims@,
            topology.freelist == old(topology).freelist,
            topology.diagnostics@ == old(topology).diagnostics@,
            topology.coverage == old(topology).coverage,
            topology.pointer_map == old(topology).pointer_map,
            topology.classifications@ == old(topology).classifications@,
            topology.traversals@ == old(topology).traversals@,
            kept@ == kept_relationships(relationships@.subrange(0, i as int), topology.claims@),
            control_kept(*old(control), *control),
        decreases relationships@.len() - i,
    {
        if !checkpoint(control) {
            topology.relationships = kept;
            return false;
        }
        let relationship = relationships[i];
        assert(relationships@.subrange(0, i + 1).drop_last() =~= relationships@.subrange(0, i as int));
        if has_validated_id(&topology.claims, relationship.claim_id) {
            kept.push(relationship);
        }
        assert(kept@ =~= kept_relationships(relationships@.subrange(0, i + 1), topology.claims@));
        i = i + 1;
    }
    assert(relationships@.subrange(0, i as int) =~= relationships@);
    topology.relationships = kept;
    let mut traversals: Vec<Traversal> = Vec::new();
    std::mem::swap(&mut traversals, &mut topology.traversals);
    let mut normalized: Vec<Traversal> = Vec::new();
    let mut k: usize = 0;
    while k < traversals.len()
        invariant
            k <= traversals@.len(),
            traversals@ == old(topology).traversals@,
            topology.claims@ == old(topology).claims@,
            topology.freelist == old(topology).freelist,
            topology.diagnostics@ == old(topology).diagnostics@,
            topology.coverage == old(topology).coverage,
            topology.pointer_map == old(topology).pointer_map,
            topology.classifications@ == old(topology).classifications@,
            topology.relationships@ == kept_relationships(old(topology).relationships@, old(topology).claims@),
            normalized@.len() == k,
            forall|m: int| 0 <= m < k ==> (#[trigger] normalized@[m])@ == normalized_traversal(traversals@[m]@, topology.claims@, classes@, physical@),
            control_kept(*old(control), *control),
        decreases traversals@.len() - k,
    {
        if !checkpoint(control) {
            topology.traversals = normalized;
            return false;
        }
        match normalize_traversal(&traversals[k], &topology.claims, classes, physical, control) {
            Some(t) => normalized.push(t),
            None => {
                proof {
                    if !control.is_stopped() {
                        assert(!inventoried_from(cell_checked(traversals@[k as int]@, topology.claims@).validated_prefix, classes@.len() as int, 0));
                        assert(passes_uninventoried(old(topology).traversals@, old(topology).claims@, classes@.len() as int));
                    }
                }
                topology.traversals = normalized;
                return false;
            },
        }
        k = k + 1;
    }
    topology.traversals = normalized;
    true
}

/// The merge of the first `k` claim roles that credible claims of `claims` establish.
pub open spec fn physical_role_from(claims: Seq<RoleClaim>, k: int) -> PageRole
    decreases k,
{
    if k <= 0 {
        PageRole::Unknown
    } else {
        let before = physical_role_from(claims, k - 1);
        if role_count(claims, claim_role(k - 1)) > 0 { spec_merge(before, claim_role(k - 1)) } else { before }
    }
}

/// The role that a page's credible claims support together.
pub open spec fn physical_role(claims: Seq<RoleClaim>) -> PageRole {
    physical_role_from(claims, 11)
}

pub proof fn lemma_physical(support: RoleSupport, claims: Seq<RoleClaim>, k: int)
    requires
        support.supports(claims),
        0 <= k <= 11,
    ensures
        physical_from(support.counts@, k) == physical_role_from(claims, k),
    decreases k,
{
    if k > 0 {
        lemma_physical(support, claims, k - 1);
        lemma_count_nonneg(claims, claim_role(k - 1));
        assert(support.counts@[role_index(claim_role(k - 1))] == role_count(claims, claim_role(k - 1)));
    }
}

/// The role page `s` has by its own claims; pages outside the inventory have none.
pub open spec fn page_role_of(classes: Seq<PageClassification>, s: u32) -> PageRole {
    if 1 <= s <= classes.len() {
        physical_role(classes[s - 1].claims@)
    } else {
        PageRole::Unknown
    }
}

/// Whether `claims` name page `position` as a validated target.
pub open spec fn validated_into(c: RelationshipClaim, classes: Seq<PageClassification>) -> bool {
    &&& c.state == RelationshipState::Validated
    &&& claim_position(c) matches Some(n) && 0 <= n < classes.len() && classes[n].role == PageRole::Conflicting
}

/// Contains role conflicts: withdraws what rests on pages that lost the role
/// it needs, gives each page its final role (conflicting when a conflict
/// marks it), marks conflicting every validated claim into a conflicting
/// page, and normalizes relationships and traversals. Returns false on a
/// stop, or when a traversal passes an uninventoried page.
pub fn contain_conflicts(classes: &mut Vec<PageClassification>, topology: &mut Topology, control: &mut WorkControl) -> (r: bool)
    requires
        old(classes)@.len() <= u32::MAX,
    ensures
        control_kept(*old(control), *final(control)),
        final(classes)@.len() == old(classes)@.len(),
        r ==> forall|s: u32, j: int| 0 <= j < dependencies_of(old(classes)@, old(topology).claims@, old(topology).pointer_map, s).len() ==> {
            let d = #[trigger] dependencies_of(old(classes)@, old(topology).claims@, old(topology).pointer_map, s)[j];
            !spec_credible(final(classes)@[d.page as int].claims@[d.index as int].state) || d.requirement.spec_accepts(page_role_of(final(classes)@, s))
        },
        r ==> forall|n: int| 0 <= n < final(classes)@.len() ==> (#[trigger] final(classes)@[n]).role == if conflict_count(final(classes)@[n].claims@) > 0 {
            PageRole::Conflicting
        } else {
            physical_role(final(classes)@[n].claims@)
        },
        r ==> forall|i: int| 0 <= i < final(topology).claims@.len() ==> !validated_into(#[trigger] final(topology).claims@[i], final(classes)@),
        r ==> final(topology).relationships@ == kept_relationships(old(topology).relationships@, final(topology).claims@),
        !r ==> final(control).is_stopped() || passes_uninventoried(old(topology).traversals@, final(topology).claims@, old(classes)@.len() as int),
{
    let ghost classes0 = classes@;
    let ghost topology0 = *topology;
    let mut dependencies = match Dependencies::collect(classes, topology, control) {
        Some(d) => d,
        None => return false,
    };
    proof {
        assert(sized(classes@)) by {
            assert forall|p: int| 0 <= p < classes@.len() implies (#[trigger] classes@[p]).claims@.len() <= usize::MAX by {
                assert(classes@[p].claims.len() == classes@[p].claims@.len());
            }
        }
        if let Some(m) = &topology.pointer_map {
            assert(map_sized(*m)) by {
                assert forall|q: int| 0 <= q < m.pages@.len() implies (#[trigger] m.pages@[q]).entries@.len() <= usize::MAX by {
                    assert(m.pages@[q].entries.len() == m.pages@[q].entries@.len());
                }
                assert(m.pages.len() == m.pages@.len());
            }
        }
        assert(topology.claims.len() == topology.claims@.len());
        let deps = |s: u32| dependencies_of(classes@, topology.claims@, topology.pointer_map, s);
        assert forall|k: int, j: int| 0 <= k < dependencies.outgoing@.len() && 0 <= j < dependencies.outgoing@[k].dependencies@.len()
            implies dependency_valid(#[trigger] dependencies.outgoing@[k].dependencies@[j], classes@, topology.claims@.len() as int, topology.pointer_map) by {
            lemma_dependencies_valid(classes@, topology.claims@, topology.pointer_map, dependencies.outgoing@[k].source);
            assert(dependencies.outgoing@[k].dependencies@ == deps(dependencies.outgoing@[k].source));
        }
    }
    let ghost outgoing = dependencies.outgoing@;
    if !dependencies.propagate(classes, topology, control) {
        return false;
    }
    let ghost classes1 = classes@;
    let ghost support1 = dependencies.support@;
    assert(topology.relationships@ == old(topology).relationships@);
    let mut physical: Vec<bool> = Vec::new();
    let mut n: usize = 0;
    while n < dependencies.support.len()
        invariant
            n <= dependencies.support@.len(),
            dependencies.support@ == support1,
            supported(support1, classes1),
            classes@.len() == classes1.len(),
            classes1.len() == old(classes)@.len(),
            physical@.len() == n,
            forall|m: int| 0 <= m < classes@.len() ==> (#[trigger] classes@[m]).claims@ == classes1[m].claims@,
            forall|m: int| 0 <= m < n ==> (#[trigger] classes@[m]).role == if conflict_count(classes1[m].claims@) > 0 {
                PageRole::Conflicting
            } else {
                physical_role(classes1[m].claims@)
            },
            control_kept(*old(control), *control),
        decreases dependencies.support@.len() - n,
    {
        if !checkpoint(control) {
            return false;
        }
        let role = dependencies.support[n].physical();
        proof {
            lemma_physical(support1[n as int], classes1[n as int].claims@, 11);
        }
        physical.push(role == PageRole::Conflicting);
        let conflicted = dependencies.support[n].conflicts > 0;
        classes[n].role = if conflicted { PageRole::Conflicting } else { role };
        n = n + 1;
    }
    let ghost classes2 = classes@;
    let mut i: usize = 0;
    while i < topology.claims.len()
        invariant
            i <= topology.claims@.len(),
            classes@ == classes2,
            classes2.len() == old(classes)@.len(),
            topology.relationships@ == old(topology).relationships@,
            topology.traversals@ == old(topology).traversals@,
            forall|q: int| 0 <= q < i ==> !validated_into(#[trigger] topology.claims@[q], classes@),
            control_kept(*old(control), *control),
        decreases topology.claims@.len() - i,
    {
        if !checkpoint(control) {
            return false;
        }
        let claim = topology.claims[i];
        if claim.state == RelationshipState::Validated {
            if let Some(target) = claim.target {
                if target.page_number >= 1 && ((target.page_number - 1) as usize) < classes.len()
                    && classes[(target.page_number - 1) as usize].role == PageRole::Conflicting {
                    topology.claims.set(i, RelationshipClaim {
                        state: RelationshipState::Conflicting,
                        stop_reason: Some(TraversalStopReason::ConflictingClaim),
                        ..claim
                    });
                }
            }
        }
        i = i + 1;
    }
    let ghost claims3 = topology.claims@;
    if !normalize_after_conflicts(classes, &physical, topology, control) {
        return false;
    }
    proof {
        assert forall|s: u32, j: int| 0 <= j < dependencies_of(classes0, topology0.claims@, topology0.pointer_map, s).len() implies {
            let d = #[trigger] dependencies_of(classes0, topology0.claims@, topology0.pointer_map, s)[j];
            !spec_credible(classes@[d.page as int].claims@[d.index as int].state) || d.requirement.spec_accepts(page_role_of(classes@, s))
        } by {
            let deps = |t: u32| dependencies_of(classes0, topology0.claims@, topology0.pointer_map, t);
            assert(deps(s).len() > 0);
            let k = choose|k: int| 0 <= k < outgoing.len() && (#[trigger] outgoing[k]).source == s;
            assert(outgoing[k].dependencies@ == deps(s));
            assert(source_settled(outgoing[k], classes1, support1));
            let d = deps(s)[j];
            assert(dependency_holds(outgoing[k].dependencies@[j], classes1, source_role(support1, s)));
            if 1 <= s <= classes1.len() {
                lemma_physical(support1[s - 1], classes1[s - 1].claims@, 11);
            }
            assert(classes@[d.page as int].claims@ == classes1[d.page as int].claims@);
        }
        assert forall|m: int| 0 <= m < classes@.len() implies (#[trigger] classes@[m]).role == if conflict_count(classes@[m].claims@) > 0 {
            PageRole::Conflicting
        } else {
            physical_role(classes@[m].claims@)
        } by {
            assert(support1[m].supports(classes1[m].claims@));
        }
    }
    true
}

/// Every relationship kept has a validated claim.
pub proof fn lemma_kept_validated(relationships: Seq<Relationship>, claims: Seq<RelationshipClaim>)
    ensures
        forall|k: int| 0 <= k < kept_relationships(relationships, claims).len()
            ==> validated_id(claims, (#[trigger] kept_relationships(relationships, claims)[k]).claim_id),
    decreases relationships.len(),
{
    if relationships.len() > 0 {
        lemma_kept_validated(relationships.drop_last(), claims);
        let rest = kept_relationships(relationships.drop_last(), claims);
        let all = kept_relationships(relationships, claims);
        assert forall|k: int| 0 <= k < all.len() implies validated_id(claims, (#[trigger] all[k]).claim_id) by {
            if k < rest.len() {
                assert(all[k] == rest[k]);
            }
        }
    }
}

/// Marks every classification reconciled; false on a stop.
fn mark_reconciled(classes: &mut Vec<PageClassification>, control: &mut WorkControl) -> (r: bool)
    ensures
        control_kept(*old(control), *final(control)),
        final(classes)@.len() == old(classes)@.len(),
        forall|n: int| 0 <= n < old(classes)@.len() ==> {
            &&& (#[trigger] final(classes)@[n]).role == old(classes)@[n].role
            &&& final(classes)@[n].claims@ == old(classes)@[n].claims@
            &&& final(classes)@[n].referenced == old(classes)@[n].referenced
        },
        r ==> forall|n: int| 0 <= n < final(classes)@.len() ==> (#[trigger] final(classes)@[n]).reconciled,
        !r ==> final(control).is_stopped(),
{
    let mut n: usize = 0;
    while n < classes.len()
        invariant
            n <= classes@.len(),
            classes@.len() == old(classes)@.len(),
            forall|m: int| 0 <= m < old(classes)@.len() ==> {
                &&& (#[trigger] classes@[m]).role == old(classes)@[m].role
                &&& classes@[m].claims@ == old(classes)@[m].claims@
                &&& classes@[m].referenced == old(classes)@[m].referenced
            },
            forall|m: int| 0 <= m < n ==> (#[trigger] classes@[m]).reconciled,
            control_kept(*old(control), *control),
        decreases classes@.len() - n,
    {
        if !checkpoint(control) {
            return false;
        }
        classes[n].reconciled = true;
        n = n + 1;
    }
    true
}

/// Reconciles the role of every inventoried page from every claim on it:
/// its own header, the relationships that name it, the pointer-map entries
/// that describe it, and the geometry. A page whose claims conflict is
/// reported, what rests on a page that lost its role is withdrawn, and no
/// validated relationship is left leading into a conflicting page. Returns
/// whether reconciliation completed; a stop leaves it partial.
pub fn reconcile(geometry: &DatabaseGeometry, pages: &Vec<PageEntity>, topology: &mut Topology, control: &mut WorkControl) -> (r: bool)
    requires
        geometry_wf(*geometry),
        pages@.len() <= u32::MAX,
        old(topology).pointer_map matches Some(m) ==> forall|p: int| 0 <= p < m.pages@.len() ==> (#[trigger] m.pages@[p]).page.page_number >= 1,
    ensures
        control_kept(*old(control), *final(control)),
        r ==> final(topology).classifications@.len() == pages@.len(),
        r ==> forall|n: int| 0 <= n < final(topology).classifications@.len() ==> (#[trigger] final(topology).classifications@[n]).reconciled,
        r ==> forall|i: int| 0 <= i < final(topology).claims@.len() ==> !validated_into(#[trigger] final(topology).claims@[i], final(topology).classifications@),
        r ==> forall|k: int| 0 <= k < final(topology).relationships@.len() ==> validated_id(final(topology).claims@, (#[trigger] final(topology).relationships@[k]).claim_id),
        !r ==> final(control).is_stopped() || passes_uninventoried(old(topology).traversals@, final(topology).claims@, pages@.len() as int),
{
    control.begin_phase(TopologyPhase::RoleReconciliation, None);
    let complete = match collect_claims(geometry, pages, topology, control) {
        None => false,
        Some(mut classes) => {
            let resolved = resolve_claims(&mut classes, &mut topology.diagnostics, control);
            let ghost relationships_before = topology.relationships@;
            let ok = resolved && contain_conflicts(&mut classes, topology, control);
            let ghost contained = classes@;
            let ok = ok && mark_reconciled(&mut classes, control);
            proof {
                if ok {
                    lemma_kept_validated(relationships_before, topology.claims@);
                    assert forall|i: int| 0 <= i < topology.claims@.len() implies !validated_into(#[trigger] topology.claims@[i], classes@) by {
                        assert(!validated_into(topology.claims@[i], contained));
                        if let Some(n) = claim_position(topology.claims@[i]) {
                            if 0 <= n < classes@.len() {
                                assert(classes@[n].role == contained[n].role);
                            }
                        }
                    }
                }
            }
            topology.classifications = classes;
            ok
        },
    };
    if complete {
        control.finish_phase(TopologyPhase::RoleReconciliation);
    }
    complete
}

} // verus!
