//! Freelist allocation evidence. It is read before B-tree topology, because
//! freed pages may still hold stale B-tree bytes.
use vstd::prelude::*;

use crate::btree::{AllocationRole, ByteRange, LocalCoverage, PageDetail, PageDiagnostic, PageView, Region, RegionKind};
use crate::bytes::{be32, dword};
use crate::geometry::{geometry_wf, DatabaseGeometry};
use crate::inventory::PageEntity;
use crate::roles::{reserved_role, spec_reserved_role, PageClassification, PageRole};
use crate::topology::{
    ClaimId, Containment, DiagnosticCode, DiagnosticSeverity, EntityIdentity, PageIdentity, PhysicalEvidence,
    Relationship, RelationshipClaim, RelationshipKind, RelationshipState, StructuralDiagnostic, TopologyPhase,
    Traversal, TraversalBudget, TraversalKind, TraversalStop, TraversalStopReason, ValidationRule, WorkControl,
};

verus! {

/// A 32-bit header or freelist field and the bytes it was read from.
#[derive(Clone, Copy, Debug, PartialEq, Eq, Structural)]
pub struct FreelistField {
    pub value: u32,
    pub evidence: PhysicalEvidence,
}

/// One validated trunk page: its leaf count and the two capacity limits.
#[derive(Clone, Copy, Debug, PartialEq, Eq, Structural)]
pub struct FreelistTrunk {
    pub page: PageIdentity,
    pub leaf_count: FreelistField,
    pub capacity: u32,
    pub compatibility_capacity: u32,
}

#[derive(Clone, Copy, Debug, PartialEq, Eq, Structural)]
pub enum FreelistCoverageReason {
    Complete,
    InvalidStructure,
    CoverageStop,
    Budget,
    Cancelled,
    OperatorStop,
    NotInspected,
    Unreadable,
}

#[derive(Clone, Copy, Debug, PartialEq, Eq, Structural)]
pub struct FreelistCoverage {
    pub reason: FreelistCoverageReason,
    pub stopping_claim: Option<ClaimId>,
    pub evaluated_pages: u32,
    /// A damaged declaration is not a trustworthy remaining-work total.
    pub remainder: Option<u32>,
}

#[derive(Clone, Debug, PartialEq, Eq)]
pub struct FreelistEvidence {
    pub first_trunk: Option<FreelistField>,
    pub declared_count: Option<FreelistField>,
    pub trunks: Vec<FreelistTrunk>,
    pub coverage: FreelistCoverage,
}

impl FreelistEvidence {
    /// Evidence for a freelist that was never inspected.
    pub fn uninspected() -> (r: Self)
        ensures
            r.first_trunk is None,
            r.declared_count is None,
            r.trunks@.len() == 0,
            r.coverage == (FreelistCoverage {
                reason: FreelistCoverageReason::NotInspected,
                stopping_claim: None,
                evaluated_pages: 0,
                remainder: None,
            }),
    {
        FreelistEvidence {
            first_trunk: None,
            declared_count: None,
            trunks: Vec::new(),
            coverage: FreelistCoverage {
                reason: FreelistCoverageReason::NotInspected,
                stopping_claim: None,
                evaluated_pages: 0,
                remainder: None,
            },
        }
    }
}

/// What allocation inspection found: the freelist account and the claims,
/// relationships, traversal and diagnostics of the freelist chain.
pub struct Allocation {
    pub freelist: FreelistEvidence,
    pub claims: Vec<RelationshipClaim>,
    pub relationships: Vec<Relationship>,
    pub traversals: Vec<Traversal>,
    pub diagnostics: Vec<StructuralDiagnostic>,
}

/// The main-file offset of byte `offset` of page `page`.
pub open spec fn field_offset(geometry: DatabaseGeometry, page: u32, offset: u32) -> int {
    (page - 1) * geometry.page_size + offset
}

/// The 32-bit field at byte `offset` of page `page`, when the image holds it.
pub open spec fn spec_field(image: Seq<u8>, geometry: DatabaseGeometry, page: u32, offset: u32, rule: ValidationRule) -> Option<FreelistField> {
    let at = field_offset(geometry, page, offset);
    if at + 4 <= image.len() {
        Some(FreelistField {
            value: be32(image, at) as u32,
            evidence: PhysicalEvidence {
                page: PageIdentity { page_number: page },
                range: ByteRange { page_offset: offset, file_offset: at as u64, length: 4 },
                validation_rule: rule,
            },
        })
    } else {
        None
    }
}

/// Reads the 32-bit field at byte `offset` of page `page`.
pub fn field(image: &[u8], geometry: &DatabaseGeometry, page: u32, offset: u32, rule: ValidationRule) -> (r: Option<FreelistField>)
    requires
        page >= 1,
        geometry.page_size <= 65536,
    ensures
        r == spec_field(image@, *geometry, page, offset, rule),
{
    proof {
        assert((page - 1) * geometry.page_size <= 0xffff_ffffu64 * 65536) by (nonlinear_arith)
            requires page >= 1, page <= 0xffff_ffff, geometry.page_size <= 65536;
    }
    let at = (page - 1) as u64 * geometry.page_size as u64 + offset as u64;
    if at + 4 > image.len() as u64 {
        return None;
    }
    let value = dword(image, at as usize);
    Some(FreelistField {
        value,
        evidence: PhysicalEvidence {
            page: PageIdentity { page_number: page },
            range: ByteRange { page_offset: offset, file_offset: at, length: 4 },
            validation_rule: rule,
        },
    })
}

/// A field that was read from the image at the place its evidence names.
pub open spec fn field_reads_image(f: FreelistField, image: Seq<u8>, geometry: DatabaseGeometry) -> bool {
    let page = f.evidence.page.page_number;
    let at = f.evidence.range.file_offset as int;
    &&& page >= 1
    &&& f.evidence.range.length == 4
    &&& at == field_offset(geometry, page, f.evidence.range.page_offset)
    &&& at + 4 <= image.len()
    &&& f.value == be32(image, at)
}

/// A field that `spec_field` reads carries evidence of where it was read.
proof fn lemma_field_reads_image(image: Seq<u8>, geometry: DatabaseGeometry, page: u32, offset: u32, rule: ValidationRule)
    requires
        page >= 1,
        geometry.page_size <= 65536,
        spec_field(image, geometry, page, offset, rule) is Some,
    ensures
        field_reads_image(spec_field(image, geometry, page, offset, rule).unwrap(), image, geometry),
{
    assert((page - 1) * geometry.page_size <= 0xffff_ffffu64 * 65536) by (nonlinear_arith)
        requires page >= 1, page <= 0xffff_ffff, geometry.page_size <= 65536;
}

/// Some page is attributed to claim `j`.
pub open spec fn attributed(incoming: Seq<Option<usize>>, j: int) -> bool {
    exists|t: int| 0 <= t < incoming.len() && #[trigger] incoming[t] == Some(j as usize)
}

/// Claims other than `index` keep their values, unless a page is attributed to them.
pub open spec fn others_kept(claims: Seq<RelationshipClaim>, before: Seq<RelationshipClaim>, incoming: Seq<Option<usize>>, index: int) -> bool {
    forall|j: int| 0 <= j < before.len() && j != index && !attributed(incoming, j) ==> #[trigger] claims[j] == before[j]
}

/// Pages newly attributed are attributed to claim `index`.
pub open spec fn attributes_only(incoming: Seq<Option<usize>>, before: Seq<Option<usize>>, index: int) -> bool {
    forall|t: int| 0 <= t < before.len() && before[t] is None && #[trigger] incoming[t] is Some ==> incoming[t] == Some(index as usize)
}

/// A freelist claim whose identity, source and target are those of the
/// pointer stored in the image at its evidence: a trunk pointer of zero ends
/// the chain and names no target.
pub open spec fn reads_image(c: RelationshipClaim, image: Seq<u8>, geometry: DatabaseGeometry) -> bool {
    let page = c.evidence.page.page_number;
    let at = c.evidence.range.file_offset as int;
    let value = be32(image, at);
    &&& (c.kind == RelationshipKind::FreelistTrunk || c.kind == RelationshipKind::FreelistLeaf)
    &&& c.id == (ClaimId::Freelist { page_number: page, byte: c.evidence.range.page_offset })
    &&& c.source == (EntityIdentity::Page { page_number: page })
    &&& page >= 1
    &&& c.evidence.range.length == 4
    &&& at == field_offset(geometry, page, c.evidence.range.page_offset)
    &&& at + 4 <= image.len()
    &&& c.target == if value != 0 || c.kind == RelationshipKind::FreelistLeaf {
        Some(PageIdentity { page_number: value as u32 })
    } else {
        None::<PageIdentity>
    }
}

/// A page that a freelist pointer may validly name: inside the database,
/// not page 1, not reserved by geometry, inventoried and readable.
pub open spec fn valid_target(t: u32, geometry: DatabaseGeometry, originals: Seq<PageEntity>) -> bool {
    &&& 2 <= t <= geometry.page_count
    &&& t <= originals.len()
    &&& spec_reserved_role(geometry, t) is None
    &&& !originals[t - 1].detail@.diagnostics.contains(PageDiagnostic::PageReadFailed)
}

/// The usable-space and reserved-tail regions of a page, in order.
pub open spec fn frame_regions_of(regions: Seq<Region>) -> Seq<Region>
    decreases regions.len(),
{
    if regions.len() == 0 {
        seq![]
    } else {
        let rest = frame_regions_of(regions.drop_last());
        let last = regions.last();
        if last.kind == RegionKind::UsableSpace || last.kind == RegionKind::OpaqueReserved {
            rest.push(last)
        } else {
            rest
        }
    }
}

/// The allocation projection of an inventoried page: it keeps its number,
/// classification and frame regions, carries an allocation role, and
/// withholds the stale B-tree contents that the freed page still holds.
pub open spec fn withholds_contents(p: PageEntity, original: PageEntity) -> bool {
    &&& p.number == original.number
    &&& p.classification == original.classification
    &&& p.detail@.kind is None
    &&& p.detail@.header is None
    &&& p.detail@.allocation_role is Some
    &&& p.detail@.cells.len() == 0
    &&& p.detail@.freeblocks.len() == 0
    &&& p.detail@.diagnostics.len() == 0
    &&& frame_regions_of(original.detail@.regions).is_prefix_of(p.detail@.regions)
}

/// The relationships of the validated claims, in claim order.
pub open spec fn validated_relationships(claims: Seq<RelationshipClaim>) -> Seq<Relationship>
    decreases claims.len(),
{
    if claims.len() == 0 {
        seq![]
    } else {
        let rest = validated_relationships(claims.drop_last());
        let c = claims.last();
        if c.state == RelationshipState::Validated {
            match c.target {
                Some(target) => rest.push(Relationship { claim_id: c.id, kind: c.kind, source: c.source, target }),
                None => rest,
            }
        } else {
            rest
        }
    }
}

/// `claims` extends `before` without changing what any earlier claim names:
/// only states and stop reasons move.
pub open spec fn keeps_shape(claims: Seq<RelationshipClaim>, before: Seq<RelationshipClaim>) -> bool {
    &&& claims.len() >= before.len()
    &&& forall|i: int| 0 <= i < before.len() ==> {
        &&& (#[trigger] claims[i]).id == before[i].id
        &&& claims[i].kind == before[i].kind
        &&& claims[i].source == before[i].source
        &&& claims[i].target == before[i].target
        &&& claims[i].evidence == before[i].evidence
    }
}

/// Every page already attributed to a claim keeps that claim.
/// Whether page `target` may be taken as a freelist page: an ordinary,
/// unreserved page of the database, not yet named by an earlier claim, that
/// the inventory holds and could read.
pub open spec fn freelist_target_accepted(geometry: DatabaseGeometry, target: u32, incoming: Seq<Option<usize>>, pages: Seq<PageEntity>) -> bool {
    &&& 1 < target <= geometry.page_count
    &&& spec_reserved_role(geometry, target) is None
    &&& !(target < incoming.len() && incoming[target as int] is Some)
    &&& target <= pages.len()
    &&& !pages[target - 1].detail.diagnostics@.contains(PageDiagnostic::PageReadFailed)
}

pub open spec fn incoming_grows(incoming: Seq<Option<usize>>, before: Seq<Option<usize>>) -> bool {
    &&& incoming.len() == before.len()
    &&& forall|t: int| 0 <= t < before.len() && #[trigger] before[t] is Some ==> incoming[t] == before[t]
}

/// Some validated trunk claim names `page`.
pub open spec fn validated_trunk(claims: Seq<RelationshipClaim>, page: PageIdentity) -> bool {
    exists|i: int| {
        &&& 0 <= i < claims.len()
        &&& #[trigger] claims[i].target == Some(page)
        &&& claims[i].state == RelationshipState::Validated
        &&& claims[i].kind == RelationshipKind::FreelistTrunk
    }
}

/// The inventory in page order: entry `i` is page `i + 1`.
pub open spec fn numbered(pages: Seq<PageEntity>) -> bool {
    &&& pages.len() < u32::MAX
    &&& forall|i: int| 0 <= i < pages.len() ==> #[trigger] pages[i].number == i + 1
}

/// Distinct page numbers drawn from `1..=n` number at most `n`.
pub proof fn lemma_distinct_pages_bounded(s: Seq<u32>, n: int)
    requires
        s.no_duplicates(),
        n >= 0,
        forall|k: int| 0 <= k < s.len() ==> 1 <= #[trigger] s[k] <= n,
    ensures
        s.len() <= n,
{
    let m = s.map_values(|x: u32| x as int);
    assert forall|i: int, j: int| 0 <= i < m.len() && 0 <= j < m.len() && i != j implies m[i] != m[j] by {
        assert(s[i] != s[j]);
    }
    assert(m.no_duplicates());
    m.unique_seq_to_set();
    vstd::set_lib::lemma_int_range(1, n + 1);
    assert forall|x: int| m.to_set().contains(x) implies vstd::set_lib::set_int_range(1, n + 1).contains(x) by {
        let k = choose|k: int| 0 <= k < m.len() && m[k] == x;
        assert(1 <= s[k] <= n);
    }
    vstd::set_lib::lemma_len_subset(m.to_set(), vstd::set_lib::set_int_range(1, n + 1));
}

/// Whether `diagnostics` records a page-read failure.
pub fn read_failed(diagnostics: &Vec<PageDiagnostic>) -> (r: bool)
    ensures
        r == diagnostics@.contains(PageDiagnostic::PageReadFailed),
{
    let mut i: usize = 0;
    while i < diagnostics.len()
        invariant
            i <= diagnostics@.len(),
            forall|j: int| 0 <= j < i ==> diagnostics@[j] != PageDiagnostic::PageReadFailed,
        decreases diagnostics@.len() - i,
    {
        if diagnostics[i] == PageDiagnostic::PageReadFailed {
            return true;
        }
        i = i + 1;
    }
    false
}

/// The usable-space and reserved-tail regions of `regions`.
fn frame_regions(regions: &Vec<Region>) -> (r: Vec<Region>)
    ensures
        r@ == frame_regions_of(regions@),
{
    let mut kept: Vec<Region> = Vec::new();
    let mut i: usize = 0;
    while i < regions.len()
        invariant
            i <= regions@.len(),
            kept@ == frame_regions_of(regions@.subrange(0, i as int)),
        decreases regions@.len() - i,
    {
        let region = regions[i];
        assert(regions@.subrange(0, i + 1).drop_last() =~= regions@.subrange(0, i as int));
        if region.kind == RegionKind::UsableSpace || region.kind == RegionKind::OpaqueReserved {
            kept.push(region);
        }
        i = i + 1;
    }
    assert(regions@.subrange(0, regions@.len() as int) =~= regions@);
    kept
}

/// Inspects the freelist that the database header declares, following the
/// trunk chain and the leaves of each trunk. Every page that the chain
/// validates is replaced in `pages` by its allocation projection, which
/// withholds the stale B-tree contents that a freed page may still hold.
pub fn inspect_freelist(image: &[u8], geometry: &DatabaseGeometry, pages: &mut Vec<PageEntity>, budget: TraversalBudget, max_trunks: u32, control: &mut WorkControl) -> (r: Allocation)
    requires
        geometry_wf(*geometry),
        image@.len() == geometry.file_length,
        numbered(old(pages)@),
    ensures
        final(pages)@.len() == old(pages)@.len(),
        forall|i: int| 0 <= i < old(pages)@.len() ==> #[trigger] final(pages)@[i] == old(pages)@[i] || {
            &&& valid_target((i + 1) as u32, *geometry, old(pages)@)
            &&& withholds_contents(final(pages)@[i], old(pages)@[i])
        },
        forall|i: int| 0 <= i < r.claims@.len() ==> #[trigger] reads_image(r.claims@[i], image@, *geometry),
        forall|i: int| 0 <= i < r.claims@.len() && #[trigger] r.claims@[i].state == RelationshipState::Validated ==> {
            &&& r.claims@[i].target is Some
            &&& valid_target(r.claims@[i].target.unwrap().page_number, *geometry, old(pages)@)
            &&& withholds_contents(
                final(pages)@[r.claims@[i].target.unwrap().page_number - 1],
                old(pages)@[r.claims@[i].target.unwrap().page_number - 1],
            )
        },
        forall|i: int, j: int|
            0 <= i < r.claims@.len() && 0 <= j < r.claims@.len() && i != j
                && #[trigger] r.claims@[i].state == RelationshipState::Validated
                && #[trigger] r.claims@[j].state == RelationshipState::Validated
                ==> r.claims@[i].target != r.claims@[j].target,
        r.freelist.first_trunk == spec_field(image@, *geometry, 1, 32, ValidationRule::HeaderFirstFreelistTrunk),
        r.freelist.declared_count == spec_field(image@, *geometry, 1, 36, ValidationRule::HeaderFreelistPageCount),
        r.freelist.first_trunk matches Some(f) && {
            &&& r.claims@.len() >= 1
            &&& r.claims@[0].evidence == f.evidence
            &&& r.claims@[0].kind == RelationshipKind::FreelistTrunk
            &&& r.relationships@ == validated_relationships(r.claims@)
            &&& r.traversals@.len() == if f.value != 0 { 1int } else { 0 }
            &&& f.value != 0 ==> {
                let traversal = r.traversals@[0];
                &&& traversal.kind == TraversalKind::Freelist
                &&& traversal.origin == (EntityIdentity::Page { page_number: 1 })
                &&& forall|k: int| 0 <= k < traversal.validated_prefix@.len()
                    ==> validated_trunk(r.claims@, #[trigger] traversal.validated_prefix@[k])
            }
        },
        r.freelist.coverage.reason == FreelistCoverageReason::Complete ==> {
            &&& r.freelist.declared_count matches Some(c)
            &&& c.value == r.freelist.coverage.evaluated_pages
            &&& r.freelist.coverage.remainder == Some(0u32)
        },
        r.freelist.coverage.evaluated_pages <= budget.spec_max_total_pages(),
        r.freelist.trunks@.len() <= max_trunks,
{
    let ghost originals = pages@;
    let mut incoming: Vec<Option<usize>> = Vec::new();
    let mut n: usize = 0;
    while n <= pages.len()
        invariant
            n <= pages@.len() + 1,
            pages@.len() < u32::MAX,
            incoming@.len() == n,
            forall|t: int| 0 <= t < n ==> incoming@[t] is None,
        decreases pages@.len() + 1 - n,
    {
        incoming.push(None);
        n = n + 1;
    }
    let mut inspector = Inspector {
        result: Allocation {
            freelist: FreelistEvidence::uninspected(),
            claims: Vec::new(),
            relationships: Vec::new(),
            traversals: Vec::new(),
            diagnostics: Vec::new(),
        },
        incoming,
        prefix: Vec::new(),
        stop: None,
        visited: Ghost(Seq::empty()),
    };
    proof {
        assert forall|i: int| 0 <= i < originals.len() && !inspector.visited@.contains((i + 1) as u32) implies #[trigger] pages@[i] == originals[i] by {}
    }
    inspector.run(image, geometry, pages, budget.max_total_pages(), max_trunks, control, Ghost(originals));
    let r = inspector.result;
    proof {
        let visited = inspector.visited@;
        let incoming = inspector.incoming@;
        assert forall|i: int| 0 <= i < originals.len() implies #[trigger] pages@[i] == originals[i] || {
            &&& valid_target((i + 1) as u32, *geometry, originals)
            &&& withholds_contents(pages@[i], originals[i])
        } by {
            if visited.contains((i + 1) as u32) {
                let k = choose|k: int| 0 <= k < visited.len() && visited[k] == (i + 1) as u32;
                assert(withholds_contents(pages@[visited[k] - 1], originals[visited[k] - 1]));
            }
        }
        assert forall|i: int| 0 <= i < r.claims@.len() && #[trigger] r.claims@[i].state == RelationshipState::Validated implies {
            &&& r.claims@[i].target is Some
            &&& valid_target(r.claims@[i].target.unwrap().page_number, *geometry, originals)
            &&& withholds_contents(
                pages@[r.claims@[i].target.unwrap().page_number - 1],
                originals[r.claims@[i].target.unwrap().page_number - 1],
            )
        } by {
            let t = r.claims@[i].target.unwrap().page_number;
            assert(incoming[t as int] is Some);
            assert(visited.contains(t));
            let k = choose|k: int| 0 <= k < visited.len() && visited[k] == t;
            assert(withholds_contents(pages@[visited[k] - 1], originals[visited[k] - 1]));
        }
        assert forall|i: int, j: int|
            0 <= i < r.claims@.len() && 0 <= j < r.claims@.len() && i != j
                && #[trigger] r.claims@[i].state == RelationshipState::Validated
                && #[trigger] r.claims@[j].state == RelationshipState::Validated
            implies r.claims@[i].target != r.claims@[j].target by {
            let t = r.claims@[i].target.unwrap().page_number as int;
            assert(r.claims@.len() == r.claims.len());
            assert(incoming[t] == Some(i as usize));
            if r.claims@[j].target == r.claims@[i].target {
                assert(incoming[t] == Some(j as usize));
            }
        }
    }
    r
}

struct Inspector {
    result: Allocation,
    /// For each page number, the claim that first validated it.
    incoming: Vec<Option<usize>>,
    prefix: Vec<PageIdentity>,
    stop: Option<TraversalStop>,
    /// The pages validated so far, in order.
    visited: Ghost<Seq<u32>>,
}

impl Inspector {
    spec fn inv(&self, image: Seq<u8>, geometry: DatabaseGeometry, pages: Seq<PageEntity>, originals: Seq<PageEntity>) -> bool {
        let claims = self.result.claims@;
        let visited = self.visited@;
        let incoming = self.incoming@;
        &&& numbered(originals)
        &&& pages.len() == originals.len()
        &&& incoming.len() == originals.len() + 1
        &&& forall|i: int| 0 <= i < claims.len() ==> #[trigger] reads_image(claims[i], image, geometry)
        &&& forall|i: int|
            0 <= i < claims.len() && #[trigger] claims[i].state == RelationshipState::Validated ==> {
                &&& claims[i].target is Some
                &&& valid_target(claims[i].target.unwrap().page_number, geometry, originals)
                &&& incoming[claims[i].target.unwrap().page_number as int] == Some(i as usize)
            }
        &&& forall|t: int|
            0 <= t < incoming.len() && #[trigger] incoming[t] is Some ==> {
                &&& incoming[t].unwrap() < claims.len()
                &&& claims[incoming[t].unwrap() as int].target == Some(PageIdentity { page_number: t as u32 })
                &&& visited.contains(t as u32)
            }
        &&& forall|k: int|
            0 <= k < visited.len() ==> {
                &&& 1 <= #[trigger] visited[k] <= originals.len()
                &&& incoming[visited[k] as int] is Some
                &&& valid_target(visited[k], geometry, originals)
                &&& withholds_contents(pages[visited[k] - 1], originals[visited[k] - 1])
            }
        &&& visited.no_duplicates()
        &&& forall|i: int| 0 <= i < originals.len() && !visited.contains((i + 1) as u32) ==> #[trigger] pages[i] == originals[i]
        &&& self.result.freelist.coverage.evaluated_pages == visited.len()
        &&& forall|k: int| 0 <= k < self.prefix@.len() ==> visited.contains(#[trigger] self.prefix@[k].page_number)
    }

    /// Changing only the state of one claim away from Validated keeps the invariant.
    proof fn lemma_state_change_keeps_inv(&self, before: Self, index: usize, image: Seq<u8>, geometry: DatabaseGeometry, pages: Seq<PageEntity>, originals: Seq<PageEntity>)
        requires
            before.inv(image, geometry, pages, originals),
            index < before.result.claims@.len(),
            self.result.claims@.len() == before.result.claims@.len(),
            self.result.claims@[index as int].state != RelationshipState::Validated,
            self.result.claims@[index as int] == (RelationshipClaim {
                state: self.result.claims@[index as int].state,
                stop_reason: self.result.claims@[index as int].stop_reason,
                ..before.result.claims@[index as int]
            }),
            forall|i: int| 0 <= i < before.result.claims@.len() && i != index ==> self.result.claims@[i] == before.result.claims@[i],
            self.incoming == before.incoming,
            self.visited == before.visited,
            self.prefix == before.prefix,
            self.result.freelist.coverage.evaluated_pages == before.result.freelist.coverage.evaluated_pages,
        ensures
            self.inv(image, geometry, pages, originals),
    {
        let claims = self.result.claims@;
        assert forall|i: int| 0 <= i < claims.len() implies #[trigger] reads_image(claims[i], image, geometry) by {
            assert(reads_image(before.result.claims@[i], image, geometry));
        }
        assert forall|t: int| 0 <= t < self.incoming@.len() && #[trigger] self.incoming@[t] is Some implies {
            &&& self.incoming@[t].unwrap() < claims.len()
            &&& claims[self.incoming@[t].unwrap() as int].target == Some(PageIdentity { page_number: t as u32 })
            &&& self.visited@.contains(t as u32)
        } by {
            let j = self.incoming@[t].unwrap() as int;
            assert(before.result.claims@[j].target == claims[j].target);
        }
    }

    /// Records the claim made by the pointer `field`.
    fn claim(&mut self, field: &FreelistField, kind: RelationshipKind, Ghost(image): Ghost<Seq<u8>>, Ghost(geometry): Ghost<DatabaseGeometry>, Ghost(pages): Ghost<Seq<PageEntity>>, Ghost(originals): Ghost<Seq<PageEntity>>) -> (index: usize)
        requires
            old(self).inv(image, geometry, pages, originals),
            field_reads_image(*field, image, geometry),
            kind == RelationshipKind::FreelistTrunk || kind == RelationshipKind::FreelistLeaf,
        ensures
            final(self).inv(image, geometry, pages, originals),
            index == old(self).result.claims.len(),
            final(self).result.claims@.len() == index + 1,
            final(self).result.claims@.subrange(0, index as int) == old(self).result.claims@,
            final(self).result.claims@[index as int].kind == kind,
            final(self).result.claims@[index as int].evidence == field.evidence,
            final(self).result.claims@[index as int].state != RelationshipState::Validated,
            final(self).incoming == old(self).incoming,
            final(self).visited == old(self).visited,
            final(self).prefix == old(self).prefix,
            final(self).stop == old(self).stop,
            final(self).result.freelist == old(self).result.freelist,
            final(self).result.diagnostics == old(self).result.diagnostics,
    {
        let page = field.evidence.page.page_number;
        let index = self.result.claims.len();
        let names = field.value != 0 || kind == RelationshipKind::FreelistLeaf;
        let terminal = field.value == 0 && kind == RelationshipKind::FreelistTrunk;
        self.result.claims.push(RelationshipClaim {
            id: ClaimId::Freelist { page_number: page, byte: field.evidence.range.page_offset },
            kind,
            source: EntityIdentity::Page { page_number: page },
            target: if names { Some(PageIdentity { page_number: field.value }) } else { None },
            evidence: field.evidence,
            state: if terminal { RelationshipState::Terminal } else { RelationshipState::Unresolved },
            stop_reason: None,
        });
        proof {
            let claims = self.result.claims@;
            assert(claims.subrange(0, index as int) =~= old(self).result.claims@);
            assert forall|i: int| 0 <= i < claims.len() implies #[trigger] reads_image(claims[i], image, geometry) by {
                if i < index {
                    assert(claims[i] == old(self).result.claims@[i]);
                }
            }
        }
        index
    }

    /// Marks claim `index` invalid for `reason`, reports `code` against it,
    /// and marks the page that holds the pointer as only partly interpreted.
    fn fail(&mut self, pages: &mut Vec<PageEntity>, index: usize, code: DiagnosticCode, reason: TraversalStopReason, Ghost(image): Ghost<Seq<u8>>, Ghost(geometry): Ghost<DatabaseGeometry>, Ghost(originals): Ghost<Seq<PageEntity>>)
        requires
            old(self).inv(image, geometry, old(pages)@, originals),
            index < old(self).result.claims@.len(),
        ensures
            final(self).inv(image, geometry, final(pages)@, originals),
            final(self).result.claims@ == old(self).result.claims@.update(index as int, RelationshipClaim {
                state: RelationshipState::Invalid,
                stop_reason: Some(reason),
                ..old(self).result.claims@[index as int]
            }),
            final(self).result.freelist.coverage.reason == FreelistCoverageReason::InvalidStructure,
            final(self).result.freelist.coverage.stopping_claim is Some,
            final(self).result.freelist.coverage.evaluated_pages == old(self).result.freelist.coverage.evaluated_pages,
            final(self).result.freelist.coverage.remainder == old(self).result.freelist.coverage.remainder,
            final(self).result.freelist.first_trunk == old(self).result.freelist.first_trunk,
            final(self).result.freelist.declared_count == old(self).result.freelist.declared_count,
            final(self).result.freelist.trunks == old(self).result.freelist.trunks,
            final(self).result.diagnostics@.len() == old(self).result.diagnostics@.len() + 1,
            final(self).incoming == old(self).incoming,
            final(self).visited == old(self).visited,
            final(self).prefix == old(self).prefix,
            final(self).stop == old(self).stop,
    {
        self.result.claims[index].state = RelationshipState::Invalid;
        self.result.claims[index].stop_reason = Some(reason);
        let claim = self.result.claims[index];
        let mut evidence = Vec::new();
        evidence.push(claim.evidence);
        let mut affected = Vec::new();
        affected.push(claim.id);
        self.result.diagnostics.push(StructuralDiagnostic {
            code,
            severity: DiagnosticSeverity::Error,
            evidence,
            affected_relationships: affected,
            containment: Containment::TraversalStopped,
        });
        let page = claim.evidence.page.page_number as usize;
        if page < self.incoming.len() && self.incoming[page].is_some() {
            proof {
                let t = page as int;
                assert(self.incoming@[t] is Some);
                assert(self.visited@.contains(t as u32));
                let k = choose|k: int| 0 <= k < self.visited@.len() && self.visited@[k] == t as u32;
                assert(withholds_contents(pages@[self.visited@[k] - 1], originals[self.visited@[k] - 1]));
            }
            let ghost before = pages@;
            pages[page - 1].detail.coverage = LocalCoverage::Partial;
            proof {
                let t = page as int;
                assert forall|k: int| 0 <= k < self.visited@.len() implies withholds_contents(pages@[self.visited@[k] - 1], originals[self.visited@[k] - 1]) by {
                    let v = self.visited@[k];
                    if v as int - 1 == t - 1 {
                        assert(pages@[v - 1].detail@ == PageView { coverage: LocalCoverage::Partial, ..before[v - 1].detail@ });
                    } else {
                        assert(pages@[v - 1] == before[v - 1]);
                    }
                }
                assert forall|i: int| 0 <= i < originals.len() && !self.visited@.contains((i + 1) as u32) implies #[trigger] pages@[i] == originals[i] by {
                    if i == t - 1 {
                        assert(self.visited@.contains(t as u32));
                    } else {
                        assert(pages@[i] == before[i]);
                    }
                }
            }
        }
        self.result.freelist.coverage.reason = FreelistCoverageReason::InvalidStructure;
        if self.result.freelist.coverage.stopping_claim.is_none() {
            self.result.freelist.coverage.stopping_claim = Some(claim.id);
        }
        proof {
            let claims = self.result.claims@;
            assert forall|i: int| 0 <= i < claims.len() implies #[trigger] reads_image(claims[i], image, geometry) by {
                if i != index {
                    assert(claims[i] == old(self).result.claims@[i]);
                } else {
                    assert(reads_image(old(self).result.claims@[i], image, geometry));
                }
            }
            assert forall|t: int| 0 <= t < self.incoming@.len() && #[trigger] self.incoming@[t] is Some implies {
                &&& self.incoming@[t].unwrap() < claims.len()
                &&& claims[self.incoming@[t].unwrap() as int].target == Some(PageIdentity { page_number: t as u32 })
                &&& self.visited@.contains(t as u32)
            } by {
                let j = self.incoming@[t].unwrap() as int;
                assert(old(self).result.claims@[j].target == claims[j].target);
            }
        }
    }

    /// Records where the chain stopped: at claim `index`.
    fn stop_at(&mut self, index: usize)
        requires
            index < old(self).result.claims@.len(),
        ensures
            final(self).stop == Some(TraversalStop {
                reason: match old(self).result.claims@[index as int].stop_reason {
                    Some(r) => r,
                    None => TraversalStopReason::InvalidReference,
                },
                claim_id: old(self).result.claims@[index as int].id,
                intended_target: old(self).result.claims@[index as int].target,
            }),
            final(self).result.freelist.coverage == (FreelistCoverage {
                stopping_claim: Some(old(self).result.claims@[index as int].id),
                ..old(self).result.freelist.coverage
            }),
            final(self).result.claims == old(self).result.claims,
            final(self).result.diagnostics == old(self).result.diagnostics,
            final(self).result.relationships == old(self).result.relationships,
            final(self).result.traversals == old(self).result.traversals,
            final(self).result.freelist.first_trunk == old(self).result.freelist.first_trunk,
            final(self).result.freelist.declared_count == old(self).result.freelist.declared_count,
            final(self).result.freelist.trunks == old(self).result.freelist.trunks,
            final(self).incoming == old(self).incoming,
            final(self).visited == old(self).visited,
            final(self).prefix == old(self).prefix,
    {
        let claim = self.result.claims[index];
        self.result.freelist.coverage.stopping_claim = Some(claim.id);
        self.stop = Some(TraversalStop {
            reason: match claim.stop_reason {
                Some(r) => r,
                None => TraversalStopReason::InvalidReference,
            },
            claim_id: claim.id,
            intended_target: claim.target,
        });
    }

    /// Records that the pointer of claim `index` could not be followed
    /// because the bytes it leads to could not be read.
    fn read_failure(&mut self, pages: &mut Vec<PageEntity>, index: usize, Ghost(image): Ghost<Seq<u8>>, Ghost(geometry): Ghost<DatabaseGeometry>, Ghost(originals): Ghost<Seq<PageEntity>>)
        requires
            old(self).inv(image, geometry, old(pages)@, originals),
            index < old(self).result.claims@.len(),
        ensures
            final(self).inv(image, geometry, final(pages)@, originals),
            final(self).result.claims@.len() == old(self).result.claims@.len(),
            final(self).result.claims@[index as int].state == RelationshipState::Unresolved,
            forall|i: int| 0 <= i < old(self).result.claims@.len() && i != index ==> final(self).result.claims@[i] == old(self).result.claims@[i],
            final(self).result.freelist.coverage.reason == FreelistCoverageReason::Unreadable,
            final(self).result.freelist.coverage.evaluated_pages == old(self).result.freelist.coverage.evaluated_pages,
            keeps_shape(final(self).result.claims@, old(self).result.claims@),
            final(self).result.freelist.first_trunk == old(self).result.freelist.first_trunk,
            final(self).result.freelist.declared_count == old(self).result.freelist.declared_count,
            final(self).result.freelist.trunks == old(self).result.freelist.trunks,
            final(self).visited == old(self).visited,
            final(self).prefix == old(self).prefix,
            incoming_grows(final(self).incoming@, old(self).incoming@),
    {
        self.fail(pages, index, DiagnosticCode::FreelistReadFailed, TraversalStopReason::MissingTarget, Ghost(image), Ghost(geometry), Ghost(originals));
        let ghost failed = *self;
        self.result.claims[index].state = RelationshipState::Unresolved;
        self.result.freelist.coverage.reason = FreelistCoverageReason::Unreadable;
        self.stop_at(index);
        proof {
            self.lemma_state_change_keeps_inv(failed, index, image, geometry, pages@, originals);
        }
    }

    /// Claim `index` names page `target`, already validated by claim `previous`.
    /// Two trunk pointers to one page form a cycle; any other repeat makes
    /// both claims conflict and marks the page's role as conflicting.
    fn repeated_claim(&mut self, pages: &mut Vec<PageEntity>, index: usize, role: AllocationRole, target: u32, previous: usize, Ghost(image): Ghost<Seq<u8>>, Ghost(geometry): Ghost<DatabaseGeometry>, Ghost(originals): Ghost<Seq<PageEntity>>)
        requires
            old(self).inv(image, geometry, old(pages)@, originals),
            index < old(self).result.claims@.len(),
            1 <= target < old(self).incoming@.len(),
            old(self).incoming@[target as int] == Some(previous),
        ensures
            final(self).inv(image, geometry, final(pages)@, originals),
            keeps_shape(final(self).result.claims@, old(self).result.claims@),
            final(self).result.claims@.len() == old(self).result.claims@.len(),
            final(self).result.claims@[index as int].state == RelationshipState::Conflicting,
            final(self).result.claims@[index as int].stop_reason matches Some(r) && (r == TraversalStopReason::Cycle || r == TraversalStopReason::ConflictingClaim),
            others_kept(final(self).result.claims@, old(self).result.claims@, old(self).incoming@, index as int),
            final(self).result.freelist.coverage.reason == FreelistCoverageReason::InvalidStructure,
            final(self).result.freelist.coverage.evaluated_pages == old(self).result.freelist.coverage.evaluated_pages,
            final(self).result.freelist.first_trunk == old(self).result.freelist.first_trunk,
            final(self).result.freelist.declared_count == old(self).result.freelist.declared_count,
            final(self).result.freelist.trunks == old(self).result.freelist.trunks,
            final(self).visited == old(self).visited,
            final(self).prefix == old(self).prefix,
            incoming_grows(final(self).incoming@, old(self).incoming@),
    {
        proof {
            assert(self.incoming@[target as int] is Some);
            assert(attributed(self.incoming@, previous as int));
        }
        let cycle = role == AllocationRole::FreelistTrunk && self.result.claims[previous].kind == RelationshipKind::FreelistTrunk;
        let reason = if cycle { TraversalStopReason::Cycle } else { TraversalStopReason::ConflictingClaim };
        let code = if cycle { DiagnosticCode::FreelistTrunkCycle } else { DiagnosticCode::FreelistRepeatedClaim };
        self.fail(pages, index, code, reason, Ghost(image), Ghost(geometry), Ghost(originals));
        let ghost failed = *self;
        self.result.claims[index].state = RelationshipState::Conflicting;
        proof {
            self.lemma_state_change_keeps_inv(failed, index, image, geometry, pages@, originals);
        }
        if !cycle {
            let ghost marked = *self;
            self.result.claims[previous].state = RelationshipState::Conflicting;
            self.result.claims[previous].stop_reason = Some(reason);
            proof {
                self.lemma_state_change_keeps_inv(marked, previous, image, geometry, pages@, originals);
                assert(self.visited@.contains(target));
                let k = choose|k: int| 0 <= k < self.visited@.len() && self.visited@[k] == target;
                assert(withholds_contents(pages@[self.visited@[k] - 1], originals[self.visited@[k] - 1]));
            }
            let ghost before = pages@;
            let k = (target - 1) as usize;
            pages[k].detail.allocation_role = Some(AllocationRole::Conflicting);
            pages[k].detail.coverage = LocalCoverage::Partial;
            proof {
                assert forall|m: int| 0 <= m < self.visited@.len() implies withholds_contents(pages@[self.visited@[m] - 1], originals[self.visited@[m] - 1]) by {
                    let v = self.visited@[m];
                    if v as int - 1 != k {
                        assert(pages@[v - 1] == before[v - 1]);
                    }
                }
                assert forall|i: int| 0 <= i < originals.len() && !self.visited@.contains((i + 1) as u32) implies #[trigger] pages@[i] == originals[i] by {
                    if i != k {
                        assert(pages@[i] == before[i]);
                    }
                }
            }
        }
        let prior = self.result.claims[previous];
        let last = self.result.diagnostics.len() - 1;
        self.result.diagnostics[last].evidence.push(prior.evidence);
        self.result.diagnostics[last].affected_relationships.push(prior.id);
    }

    /// Validates the page that claim `index` names as a freelist page of
    /// `role`; on success the page is projected and counted.
    fn validate(&mut self, pages: &mut Vec<PageEntity>, index: usize, role: AllocationRole, max_total_pages: u64, control: &mut WorkControl, Ghost(image): Ghost<Seq<u8>>, geometry: &DatabaseGeometry, Ghost(originals): Ghost<Seq<PageEntity>>) -> (r: bool)
        requires
            old(self).inv(image, *geometry, old(pages)@, originals),
            geometry_wf(*geometry),
            index < old(self).result.claims@.len(),
            old(self).result.claims@[index as int].target is Some,
            old(self).result.claims@[index as int].state != RelationshipState::Validated,
            old(self).result.freelist.coverage.evaluated_pages <= max_total_pages,
        ensures
            final(self).inv(image, *geometry, final(pages)@, originals),
            keeps_shape(final(self).result.claims@, old(self).result.claims@),
            final(self).result.claims@.len() == old(self).result.claims@.len(),
            final(self).result.freelist.coverage.evaluated_pages <= max_total_pages,
            final(self).result.freelist.first_trunk == old(self).result.freelist.first_trunk,
            final(self).result.freelist.declared_count == old(self).result.freelist.declared_count,
            final(self).result.freelist.trunks == old(self).result.freelist.trunks,
            final(self).prefix == old(self).prefix,
            incoming_grows(final(self).incoming@, old(self).incoming@),
            others_kept(final(self).result.claims@, old(self).result.claims@, old(self).incoming@, index as int),
            attributes_only(final(self).incoming@, old(self).incoming@, index as int),
            r ==> final(self).result.claims@[index as int].state == RelationshipState::Validated,
            r ==> final(self).visited@ == old(self).visited@.push(old(self).result.claims@[index as int].target.unwrap().page_number),
            !r ==> final(self).visited@ == old(self).visited@,
            !r ==> final(self).result.claims@[index as int].state != RelationshipState::Validated,
            r == (!final(control).is_stopped() && old(self).result.freelist.coverage.evaluated_pages < max_total_pages
                && freelist_target_accepted(*geometry, old(self).result.claims@[index as int].target.unwrap().page_number, old(self).incoming@, old(pages)@)),
    {
        let target = match self.result.claims[index].target {
            Some(p) => p.page_number,
            None => 0,
        };
        control.refresh();
        if let Some(reason) = control.traversal_reason() {
            let ghost before = *self;
            self.result.claims[index].stop_reason = Some(reason);
            self.result.freelist.coverage.reason = match reason {
                TraversalStopReason::Cancelled => FreelistCoverageReason::Cancelled,
                TraversalStopReason::Budget => FreelistCoverageReason::Budget,
                _ => FreelistCoverageReason::OperatorStop,
            };
            proof {
                self.lemma_state_change_keeps_inv(before, index, image, *geometry, pages@, originals);
            }
            return false;
        }
        if self.result.freelist.coverage.evaluated_pages as u64 >= max_total_pages {
            control.mark_aggregate_budget_exhausted();
            let ghost before = *self;
            self.result.claims[index].stop_reason = Some(TraversalStopReason::Budget);
            self.result.freelist.coverage.reason = FreelistCoverageReason::Budget;
            proof {
                self.lemma_state_change_keeps_inv(before, index, image, *geometry, pages@, originals);
            }
            return false;
        }
        if target <= 1 {
            self.fail(pages, index, DiagnosticCode::FreelistInvalidPage, TraversalStopReason::InvalidReference, Ghost(image), Ghost(*geometry), Ghost(originals));
            return false;
        }
        if target > geometry.page_count {
            self.fail(pages, index, DiagnosticCode::FreelistPageOutOfRange, TraversalStopReason::OutOfRange, Ghost(image), Ghost(*geometry), Ghost(originals));
            let ghost failed = *self;
            self.result.claims[index].state = RelationshipState::Unresolved;
            proof {
                self.lemma_state_change_keeps_inv(failed, index, image, *geometry, pages@, originals);
            }
            return false;
        }
        if reserved_role(geometry, target).is_some() {
            self.fail(pages, index, DiagnosticCode::FreelistReservedPageConflict, TraversalStopReason::ConflictingClaim, Ghost(image), Ghost(*geometry), Ghost(originals));
            let ghost failed = *self;
            self.result.claims[index].state = RelationshipState::Conflicting;
            proof {
                self.lemma_state_change_keeps_inv(failed, index, image, *geometry, pages@, originals);
            }
            return false;
        }
        if (target as usize) < self.incoming.len() {
            if let Some(previous) = self.incoming[target as usize] {
                self.repeated_claim(pages, index, role, target, previous, Ghost(image), Ghost(*geometry), Ghost(originals));
                return false;
            }
        }
        if target as usize > pages.len() {
            let ghost before = *self;
            if self.result.freelist.coverage.stopping_claim.is_none() {
                self.result.freelist.coverage.stopping_claim = Some(self.result.claims[index].id);
            }
            self.result.claims[index].stop_reason = Some(TraversalStopReason::CoverageStop);
            self.result.freelist.coverage.reason = FreelistCoverageReason::CoverageStop;
            proof {
                self.lemma_state_change_keeps_inv(before, index, image, *geometry, pages@, originals);
            }
            return false;
        }
        proof {
            assert(!self.visited@.contains(target)) by {
                if self.visited@.contains(target) {
                    let k = choose|k: int| 0 <= k < self.visited@.len() && self.visited@[k] == target;
                    assert(self.incoming@[self.visited@[k] as int] is Some);
                }
            }
            assert(pages@[target - 1] == originals[target - 1]);
        }
        if read_failed(&pages[(target - 1) as usize].detail.diagnostics) {
            self.read_failure(pages, index, Ghost(image), Ghost(*geometry), Ghost(originals));
            return false;
        }
        proof {
            lemma_distinct_pages_bounded(self.visited@, originals.len() as int);
        }
        self.project(pages, target, role, index, Ghost(image), Ghost(*geometry), Ghost(originals));
        control.advance(TopologyPhase::FreelistInspection);
        true
    }

    /// Follows the trunk chain from the header's first-trunk pointer,
    /// validating each trunk page and every leaf page it lists.
    fn run(&mut self, image: &[u8], geometry: &DatabaseGeometry, pages: &mut Vec<PageEntity>, max_total_pages: u64, max_trunks: u32, control: &mut WorkControl, Ghost(originals): Ghost<Seq<PageEntity>>)
        requires
            old(self).inv(image@, *geometry, old(pages)@, originals),
            geometry_wf(*geometry),
            image@.len() == geometry.file_length,
            old(self).result.claims@.len() == 0,
            old(self).result.freelist.coverage.evaluated_pages == 0,
            old(self).result.freelist.first_trunk is None,
            old(self).result.freelist.declared_count is None,
            old(self).result.freelist.trunks@.len() == 0,
            old(self).result.freelist.coverage.reason == FreelistCoverageReason::NotInspected,
            old(self).prefix@.len() == 0,
        ensures
            final(self).inv(image@, *geometry, final(pages)@, originals),
            final(self).result.freelist.first_trunk == spec_field(image@, *geometry, 1, 32, ValidationRule::HeaderFirstFreelistTrunk),
            final(self).result.freelist.declared_count == spec_field(image@, *geometry, 1, 36, ValidationRule::HeaderFreelistPageCount),
            final(self).result.freelist.first_trunk matches Some(f) && {
                &&& final(self).result.claims@.len() >= 1
                &&& final(self).result.claims@[0].evidence == f.evidence
                &&& final(self).result.claims@[0].kind == RelationshipKind::FreelistTrunk
                &&& final(self).result.relationships@ == validated_relationships(final(self).result.claims@)
                &&& final(self).result.traversals@.len() == if f.value != 0 { 1int } else { 0 }
                &&& f.value != 0 ==> {
                    let traversal = final(self).result.traversals@[0];
                    &&& traversal.kind == TraversalKind::Freelist
                    &&& traversal.origin == (EntityIdentity::Page { page_number: 1 })
                    &&& forall|k: int| 0 <= k < traversal.validated_prefix@.len()
                        ==> validated_trunk(final(self).result.claims@, #[trigger] traversal.validated_prefix@[k])
                }
            },
            final(self).result.freelist.coverage.reason == FreelistCoverageReason::Complete ==> {
                &&& final(self).result.freelist.declared_count matches Some(c)
                &&& c.value == final(self).result.freelist.coverage.evaluated_pages
                &&& final(self).result.freelist.coverage.remainder == Some(0u32)
            },
            final(self).result.freelist.coverage.evaluated_pages <= max_total_pages,
            final(self).result.freelist.trunks@.len() <= max_trunks,
    {
        control.begin_phase(TopologyPhase::FreelistInspection, None);
        proof {
            assert(field_offset(*geometry, 1, 32) == 32);
            assert(field_offset(*geometry, 1, 36) == 36);
        }
        let first = match field(image, geometry, 1, 32, ValidationRule::HeaderFirstFreelistTrunk) {
            Some(f) => f,
            None => {
                self.result.freelist.coverage.reason = FreelistCoverageReason::Unreadable;
                return;
            },
        };
        let count = match field(image, geometry, 1, 36, ValidationRule::HeaderFreelistPageCount) {
            Some(f) => f,
            None => {
                self.result.freelist.coverage.reason = FreelistCoverageReason::Unreadable;
                return;
            },
        };
        self.result.freelist.first_trunk = Some(first);
        self.result.freelist.declared_count = Some(count);
        self.result.freelist.coverage.reason = FreelistCoverageReason::Complete;
        let mut index = self.claim(&first, RelationshipKind::FreelistTrunk, Ghost(image@), Ghost(*geometry), Ghost(pages@), Ghost(originals));
        while self.result.claims[index].target.is_some()
            invariant_except_break
                index < self.result.claims@.len(),
                self.result.claims@[index as int].kind == RelationshipKind::FreelistTrunk,
                self.result.claims@[index as int].state != RelationshipState::Validated,
            invariant
                self.inv(image@, *geometry, pages@, originals),
                geometry_wf(*geometry),
                self.result.claims@.len() >= 1,
                self.result.claims@[0].evidence == first.evidence,
                self.result.claims@[0].kind == RelationshipKind::FreelistTrunk,
                self.result.freelist.first_trunk == Some(first),
                self.result.freelist.declared_count == Some(count),
                self.result.freelist.coverage.evaluated_pages <= max_total_pages,
                self.prefix@.len() <= max_trunks,
                self.result.freelist.trunks@.len() <= self.prefix@.len(),
                forall|k: int| 0 <= k < self.prefix@.len() ==> {
                    &&& (#[trigger] self.prefix@[k]).page_number < self.incoming@.len()
                    &&& self.incoming@[self.prefix@[k].page_number as int] is Some
                    &&& self.result.claims@[self.incoming@[self.prefix@[k].page_number as int].unwrap() as int].kind == RelationshipKind::FreelistTrunk
                },
            decreases originals.len() - self.visited@.len(),
        {
            let ghost entry = *self;
            proof {
                lemma_distinct_pages_bounded(self.visited@, originals.len() as int);
            }
            if self.prefix.len() as u64 >= max_trunks as u64 {
                control.mark_budget_exhausted();
                self.result.claims[index].stop_reason = Some(TraversalStopReason::Budget);
                self.result.freelist.coverage.reason = FreelistCoverageReason::Budget;
                proof {
                    self.lemma_state_change_keeps_inv(entry, index, image@, *geometry, pages@, originals);
                }
                self.stop_at(index);
                break;
            }
            if !self.validate(pages, index, AllocationRole::FreelistTrunk, max_total_pages, control, Ghost(image@), geometry, Ghost(originals)) {
                self.stop_at(index);
                break;
            }
            let page = match self.result.claims[index].target {
                Some(p) => p.page_number,
                None => 0,
            };
            proof {
                assert(self.incoming@[page as int] == Some(index));
                assert(self.visited@[self.visited@.len() - 1] == page);
            }
            self.prefix.push(PageIdentity { page_number: page });
            proof {
                assert forall|m: int| 0 <= m < self.prefix@.len() implies self.visited@.contains(#[trigger] self.prefix@[m].page_number) by {
                    if m < self.prefix@.len() - 1 {
                        assert(entry.prefix@[m] == self.prefix@[m]);
                        assert(entry.visited@.contains(self.prefix@[m].page_number));
                        let q = choose|q: int| 0 <= q < entry.visited@.len() && entry.visited@[q] == self.prefix@[m].page_number;
                        assert(self.visited@[q] == entry.visited@[q]);
                    }
                }
            }
            match self.read_trunk(image, geometry, pages, page, index, max_total_pages, control, Ghost(originals)) {
                Some(next_index) => {
                    index = next_index;
                },
                None => break,
            }
            proof {
                lemma_distinct_pages_bounded(self.visited@, originals.len() as int);
            }
        }
        self.finish(&first, control, Ghost(image@), Ghost(*geometry), Ghost(pages@), Ghost(originals));
    }

    /// Reads validated trunk page `page`, whose pointer is claim `index`:
    /// records the trunk, claims its next-trunk pointer and validates every
    /// leaf it lists. Returns the next-trunk claim, or `None` where the chain halts.
    fn read_trunk(&mut self, image: &[u8], geometry: &DatabaseGeometry, pages: &mut Vec<PageEntity>, page: u32, index: usize, max_total_pages: u64, control: &mut WorkControl, Ghost(originals): Ghost<Seq<PageEntity>>) -> (r: Option<usize>)
        requires
            old(self).inv(image@, *geometry, old(pages)@, originals),
            geometry_wf(*geometry),
            index < old(self).result.claims@.len(),
            old(self).visited@.contains(page),
            page >= 1,
            old(self).result.freelist.coverage.evaluated_pages <= max_total_pages,
        ensures
            final(self).inv(image@, *geometry, final(pages)@, originals),
            keeps_shape(final(self).result.claims@, old(self).result.claims@),
            incoming_grows(final(self).incoming@, old(self).incoming@),
            final(self).visited@.len() >= old(self).visited@.len(),
            final(self).prefix == old(self).prefix,
            final(self).result.freelist.first_trunk == old(self).result.freelist.first_trunk,
            final(self).result.freelist.declared_count == old(self).result.freelist.declared_count,
            final(self).result.freelist.coverage.evaluated_pages <= max_total_pages,
            final(self).result.freelist.trunks@.len() <= old(self).result.freelist.trunks@.len() + 1,
            r matches Some(n) ==> {
                &&& n < final(self).result.claims@.len()
                &&& final(self).result.claims@[n as int].kind == RelationshipKind::FreelistTrunk
                &&& final(self).result.claims@[n as int].state != RelationshipState::Validated
                &&& final(self).result.freelist.trunks@.len() == old(self).result.freelist.trunks@.len() + 1
                &&& final(self).result.freelist.trunks@.last().page == (PageIdentity { page_number: page })
                &&& final(self).result.freelist.trunks@.last().capacity == geometry.usable_size / 4 - 2
                &&& final(self).result.freelist.trunks@.last().leaf_count.value <= geometry.usable_size / 4 - 2
            },
            r is None ==> final(self).stop is Some || final(self).result.freelist.coverage.reason == FreelistCoverageReason::Unreadable,
    {
        let capacity = geometry.usable_size / 4 - 2;
        let next = match self.required_field(image, geometry, pages, page, 0, ValidationRule::FreelistNextTrunk, index, Ghost(originals)) {
            Some(f) => f,
            None => return None,
        };
        let leaves = match self.required_field(image, geometry, pages, page, 4, ValidationRule::FreelistLeafCount, index, Ghost(originals)) {
            Some(f) => f,
            None => return None,
        };
        self.result.freelist.trunks.push(FreelistTrunk {
            page: PageIdentity { page_number: page },
            leaf_count: leaves,
            capacity,
            compatibility_capacity: capacity - 6,
        });
        proof {
            lemma_field_reads_image(image@, *geometry, page, 0, ValidationRule::FreelistNextTrunk);
        }
        let ghost unclaimed = *self;
        let next_index = self.claim(&next, RelationshipKind::FreelistTrunk, Ghost(image@), Ghost(*geometry), Ghost(pages@), Ghost(originals));
        proof {
            assert(keeps_shape(self.result.claims@, unclaimed.result.claims@));
        }
        if leaves.value > capacity {
            self.fail(pages, next_index, DiagnosticCode::FreelistLeafCountExceedsCapacity, TraversalStopReason::InvalidReference, Ghost(image@), Ghost(*geometry), Ghost(originals));
            let last = self.result.diagnostics.len() - 1;
            self.result.diagnostics[last].evidence.push(leaves.evidence);
            self.stop_at(next_index);
            return None;
        }
        self.trunk_regions(pages, page, leaves.value, geometry, Ghost(image@), Ghost(originals));
        proof {
            assert forall|t: int| 0 <= t < self.incoming@.len() implies self.incoming@[t] != Some(next_index) by {
                if self.incoming@[t] is Some {
                    assert(self.incoming@[t].unwrap() < unclaimed.result.claims@.len());
                }
            }
            assert(!attributed(self.incoming@, next_index as int));
        }
        let ghost claimed = *self;
        let mut leaf: u32 = 0;
        while leaf < leaves.value
            invariant
                self.inv(image@, *geometry, pages@, originals),
                geometry_wf(*geometry),
                leaves.value <= capacity,
                capacity == geometry.usable_size / 4 - 2,
                leaf <= leaves.value,
                page >= 1,
                next_index < claimed.result.claims@.len(),
                keeps_shape(self.result.claims@, claimed.result.claims@),
                keeps_shape(claimed.result.claims@, old(self).result.claims@),
                incoming_grows(self.incoming@, old(self).incoming@),
                self.visited@.len() >= old(self).visited@.len(),
                self.prefix == old(self).prefix,
                self.result.freelist.first_trunk == old(self).result.freelist.first_trunk,
                self.result.freelist.declared_count == old(self).result.freelist.declared_count,
                self.result.freelist.coverage.evaluated_pages <= max_total_pages,
                self.result.freelist.trunks@.len() <= old(self).result.freelist.trunks@.len() + 1,
                self.result.freelist.trunks == claimed.result.freelist.trunks,
                claimed.result.freelist.trunks@.len() == old(self).result.freelist.trunks@.len() + 1,
                claimed.result.freelist.trunks@.last().page == (PageIdentity { page_number: page }),
                claimed.result.freelist.trunks@.last().capacity == capacity,
                claimed.result.freelist.trunks@.last().leaf_count == leaves,
                self.result.claims@[next_index as int] == claimed.result.claims@[next_index as int],
                !attributed(self.incoming@, next_index as int),
                claimed.result.claims@[next_index as int].kind == RelationshipKind::FreelistTrunk,
                claimed.result.claims@[next_index as int].state != RelationshipState::Validated,
            decreases leaves.value - leaf,
        {
            let pointer = match self.required_field(image, geometry, pages, page, 8 + 4 * leaf, ValidationRule::FreelistLeafPage, next_index, Ghost(originals)) {
                Some(f) => f,
                None => return None,
            };
            proof {
                lemma_field_reads_image(image@, *geometry, page, (8 + 4 * leaf) as u32, ValidationRule::FreelistLeafPage);
            }
            let ghost before_claim = *self;
            let leaf_index = self.claim(&pointer, RelationshipKind::FreelistLeaf, Ghost(image@), Ghost(*geometry), Ghost(pages@), Ghost(originals));
            proof {
                assert(self.result.claims@.subrange(0, leaf_index as int)[next_index as int] == self.result.claims@[next_index as int]);
                assert(self.result.claims@[next_index as int] == before_claim.result.claims@[next_index as int]);
                assert(keeps_shape(self.result.claims@, claimed.result.claims@)) by {
                    assert forall|i: int| 0 <= i < claimed.result.claims@.len() implies (#[trigger] self.result.claims@[i]).id == claimed.result.claims@[i].id
                        && self.result.claims@[i].kind == claimed.result.claims@[i].kind
                        && self.result.claims@[i].source == claimed.result.claims@[i].source
                        && self.result.claims@[i].target == claimed.result.claims@[i].target
                        && self.result.claims@[i].evidence == claimed.result.claims@[i].evidence by {
                        assert(self.result.claims@.subrange(0, leaf_index as int)[i] == self.result.claims@[i]);
                        assert(before_claim.result.claims@[i].id == claimed.result.claims@[i].id);
                    }
                }
            }
            let ghost before_validation = *self;
            proof {
                assert(reads_image(self.result.claims@[leaf_index as int], image@, *geometry));
            }
            if !self.validate(pages, leaf_index, AllocationRole::FreelistLeaf, max_total_pages, control, Ghost(image@), geometry, Ghost(originals)) {
                let interrupted = match self.result.claims[leaf_index].stop_reason {
                    Some(TraversalStopReason::Budget) | Some(TraversalStopReason::Cancelled) | Some(TraversalStopReason::OperatorStop) => true,
                    _ => false,
                };
                if interrupted {
                    self.stop_at(leaf_index);
                    return None;
                }
            }
            proof {
                assert(self.result.claims@[next_index as int] == before_validation.result.claims@[next_index as int]);
                assert(keeps_shape(self.result.claims@, claimed.result.claims@)) by {
                    assert forall|i: int| 0 <= i < claimed.result.claims@.len() implies (#[trigger] self.result.claims@[i]).id == claimed.result.claims@[i].id
                        && self.result.claims@[i].kind == claimed.result.claims@[i].kind
                        && self.result.claims@[i].source == claimed.result.claims@[i].source
                        && self.result.claims@[i].target == claimed.result.claims@[i].target
                        && self.result.claims@[i].evidence == claimed.result.claims@[i].evidence by {
                        assert(before_validation.result.claims@[i].id == claimed.result.claims@[i].id);
                    }
                }
                assert forall|t: int| 0 <= t < self.incoming@.len() implies self.incoming@[t] != Some(next_index) by {
                    if before_validation.incoming@[t] is Some {
                        assert(self.incoming@[t] == before_validation.incoming@[t]);
                    }
                }
            }
            leaf = leaf + 1;
        }
        proof {
            assert forall|i: int| 0 <= i < old(self).result.claims@.len() implies (#[trigger] self.result.claims@[i]).id == old(self).result.claims@[i].id
                && self.result.claims@[i].kind == old(self).result.claims@[i].kind
                && self.result.claims@[i].source == old(self).result.claims@[i].source
                && self.result.claims@[i].target == old(self).result.claims@[i].target
                && self.result.claims@[i].evidence == old(self).result.claims@[i].evidence by {
                assert(claimed.result.claims@[i].id == old(self).result.claims@[i].id);
            }
        }
        Some(next_index)
    }

    /// The regions of trunk page `page` with `count` leaf pointers: its
    /// header, its leaf pointers and the unused rest of its usable space.
    pub open spec fn trunk_region_list(page: u32, count: u32, geometry: DatabaseGeometry) -> Seq<Region> {
        let base = ((page - 1) * geometry.page_size) as u64;
        let end = (8 + count * 4) as u32;
        seq![
            Region { kind: RegionKind::FreelistHeader, range: ByteRange { page_offset: 0, file_offset: base, length: 8 } },
            Region { kind: RegionKind::FreelistLeafPointers, range: ByteRange { page_offset: 8, file_offset: (base + 8) as u64, length: (count * 4) as u32 } },
            Region { kind: RegionKind::FreelistUnused, range: ByteRange { page_offset: end, file_offset: (base + end) as u64, length: (geometry.usable_size - end) as u32 } },
        ]
    }

    /// Describes trunk page `page`: its header, its `count` leaf pointers and
    /// the unused rest of its usable space.
    fn trunk_regions(&mut self, pages: &mut Vec<PageEntity>, page: u32, count: u32, geometry: &DatabaseGeometry, Ghost(image): Ghost<Seq<u8>>, Ghost(originals): Ghost<Seq<PageEntity>>)
        requires
            old(self).inv(image, *geometry, old(pages)@, originals),
            geometry_wf(*geometry),
            old(self).visited@.contains(page),
            count <= geometry.usable_size / 4 - 2,
        ensures
            final(self).inv(image, *geometry, final(pages)@, originals),
            *final(self) == *old(self),
            final(pages)@.len() == old(pages)@.len(),
            forall|i: int| 0 <= i < old(pages)@.len() && i != page - 1 ==> #[trigger] final(pages)@[i] == old(pages)@[i],
            final(pages)@[page - 1].detail.regions@ == old(pages)@[page - 1].detail.regions@ + Self::trunk_region_list(page, count, *geometry),
            final(pages)@[page - 1].number == old(pages)@[page - 1].number,
            final(pages)@[page - 1].detail.cells@ == old(pages)@[page - 1].detail.cells@,
            final(pages)@[page - 1].detail.diagnostics@ == old(pages)@[page - 1].detail.diagnostics@,
            final(pages)@[page - 1].detail.allocation_role == old(pages)@[page - 1].detail.allocation_role,
            final(pages)@[page - 1].detail.coverage == old(pages)@[page - 1].detail.coverage,
    {
        proof {
            let k = choose|k: int| 0 <= k < self.visited@.len() && self.visited@[k] == page;
            assert(withholds_contents(pages@[self.visited@[k] - 1], originals[self.visited@[k] - 1]));
            assert((page - 1) * geometry.page_size <= 0xffff_ffffu64 * 65536) by (nonlinear_arith)
                requires page >= 1, page <= 0xffff_ffff, geometry.page_size <= 65536;
        }
        let end = 8 + count * 4;
        let base = (page - 1) as u64 * geometry.page_size as u64;
        let k = (page - 1) as usize;
        let ghost before = pages@;
        pages[k].detail.regions.push(Region {
            kind: RegionKind::FreelistHeader,
            range: ByteRange { page_offset: 0, file_offset: base, length: 8 },
        });
        pages[k].detail.regions.push(Region {
            kind: RegionKind::FreelistLeafPointers,
            range: ByteRange { page_offset: 8, file_offset: base + 8, length: count * 4 },
        });
        pages[k].detail.regions.push(Region {
            kind: RegionKind::FreelistUnused,
            range: ByteRange { page_offset: end, file_offset: base + end as u64, length: geometry.usable_size - end },
        });
        proof {
            assert(pages@[k as int].detail.regions@ =~= before[k as int].detail.regions@ + Self::trunk_region_list(page, count, *geometry));
            assert forall|m: int| 0 <= m < self.visited@.len() implies withholds_contents(pages@[self.visited@[m] - 1], originals[self.visited@[m] - 1]) by {
                let v = self.visited@[m];
                if v as int - 1 != k {
                    assert(pages@[v - 1] == before[v - 1]);
                } else {
                    let old_regions = before[k as int].detail@.regions;
                    let regions = pages@[k as int].detail@.regions;
                    assert(frame_regions_of(originals[k as int].detail@.regions).is_prefix_of(old_regions));
                    assert(old_regions.is_prefix_of(regions)) by {
                        assert(regions.subrange(0, old_regions.len() as int) =~= old_regions);
                    }
                }
            }
            assert forall|i: int| 0 <= i < originals.len() && !self.visited@.contains((i + 1) as u32) implies #[trigger] pages@[i] == originals[i] by {
                if i != k {
                    assert(pages@[i] == before[i]);
                }
            }
        }
    }

    /// Closes the inspection: checks the declared page count, cuts the
    /// traversal at the first trunk that did not stay validated, and lists the
    /// validated relationships.
    fn finish(&mut self, first: &FreelistField, control: &mut WorkControl, Ghost(image): Ghost<Seq<u8>>, Ghost(geometry): Ghost<DatabaseGeometry>, Ghost(pages): Ghost<Seq<PageEntity>>, Ghost(originals): Ghost<Seq<PageEntity>>)
        requires
            old(self).inv(image, geometry, pages, originals),
            old(self).result.freelist.declared_count is Some,
            old(self).result.claims@.len() >= 1,
            forall|t: int| 0 <= t < old(self).incoming@.len() && #[trigger] old(self).incoming@[t] is Some ==> {
                &&& old(self).incoming@[t].unwrap() < old(self).result.claims@.len()
                &&& old(self).result.claims@[old(self).incoming@[t].unwrap() as int].target == Some(PageIdentity { page_number: t as u32 })
            },
            forall|k: int| 0 <= k < old(self).prefix@.len() ==> {
                &&& (#[trigger] old(self).prefix@[k]).page_number < old(self).incoming@.len()
                &&& old(self).incoming@[old(self).prefix@[k].page_number as int] is Some
                &&& old(self).result.claims@[old(self).incoming@[old(self).prefix@[k].page_number as int].unwrap() as int].kind == RelationshipKind::FreelistTrunk
            },
        ensures
            final(self).inv(image, geometry, pages, originals),
            final(self).result.claims@ == old(self).result.claims@,
            final(self).result.freelist.first_trunk == old(self).result.freelist.first_trunk,
            final(self).result.freelist.declared_count == old(self).result.freelist.declared_count,
            final(self).result.freelist.trunks == old(self).result.freelist.trunks,
            final(self).result.freelist.coverage.evaluated_pages == old(self).result.freelist.coverage.evaluated_pages,
            final(self).result.relationships@ == validated_relationships(final(self).result.claims@),
            final(self).result.freelist.coverage.reason == FreelistCoverageReason::Complete ==> {
                &&& old(self).result.freelist.coverage.reason == FreelistCoverageReason::Complete
                &&& old(self).result.freelist.declared_count.unwrap().value == old(self).result.freelist.coverage.evaluated_pages
                &&& final(self).result.freelist.coverage.remainder == Some(0u32)
            },
            final(self).result.freelist.coverage.reason == old(self).result.freelist.coverage.reason
                || final(self).result.freelist.coverage.reason == FreelistCoverageReason::InvalidStructure,
            final(self).result.traversals@.len() == if first.value != 0 { 1int } else { 0 },
            first.value != 0 ==> {
                let traversal = final(self).result.traversals@[0];
                &&& traversal.kind == TraversalKind::Freelist
                &&& traversal.origin == (EntityIdentity::Page { page_number: 1 })
                &&& forall|k: int| 0 <= k < traversal.validated_prefix@.len()
                    ==> validated_trunk(final(self).result.claims@, #[trigger] traversal.validated_prefix@[k])
            },
    {
        let declared = match self.result.freelist.declared_count {
            Some(d) => d,
            None => return,
        };
        self.result.relationships = Vec::new();
        self.result.traversals = Vec::new();
        if self.result.freelist.coverage.reason == FreelistCoverageReason::Complete
            && declared.value != self.result.freelist.coverage.evaluated_pages {
            let mut evidence = Vec::new();
            evidence.push(first.evidence);
            evidence.push(declared.evidence);
            let mut affected = Vec::new();
            affected.push(self.result.claims[0].id);
            self.result.diagnostics.push(StructuralDiagnostic {
                code: DiagnosticCode::FreelistTotalMismatch,
                severity: DiagnosticSeverity::Error,
                evidence,
                affected_relationships: affected,
                containment: Containment::RelationshipExcluded,
            });
            self.result.freelist.coverage.reason = FreelistCoverageReason::InvalidStructure;
        }
        let ghost reason = self.result.freelist.coverage.reason;
        let mut position: usize = 0;
        while position < self.prefix.len()
            invariant
                self.inv(image, geometry, pages, originals),
                self.visited == old(self).visited,
                self.result.claims@ == old(self).result.claims@,
                self.incoming@ == old(self).incoming@,
                self.prefix@.len() <= old(self).prefix@.len(),
                self.prefix@ == old(self).prefix@.subrange(0, self.prefix@.len() as int),
                position <= self.prefix@.len(),
                forall|t: int| 0 <= t < self.incoming@.len() && #[trigger] self.incoming@[t] is Some
                    ==> self.incoming@[t].unwrap() < self.result.claims@.len(),
                forall|k: int| 0 <= k < position ==> self.result.claims@[self.incoming@[(#[trigger] self.prefix@[k]).page_number as int].unwrap() as int].state == RelationshipState::Validated,
                forall|k: int| 0 <= k < old(self).prefix@.len() ==> {
                    &&& (#[trigger] old(self).prefix@[k]).page_number < old(self).incoming@.len()
                    &&& old(self).incoming@[old(self).prefix@[k].page_number as int] is Some
                },
                self.result.freelist.coverage.reason == reason,
                self.result.freelist.coverage.evaluated_pages == old(self).result.freelist.coverage.evaluated_pages,
                self.result.freelist.first_trunk == old(self).result.freelist.first_trunk,
                self.result.freelist.declared_count == old(self).result.freelist.declared_count,
                self.result.freelist.trunks == old(self).result.freelist.trunks,
                self.result.relationships@.len() == 0,
                self.result.traversals@.len() == 0,
            ensures
                position == self.prefix@.len(),
            decreases self.prefix@.len() - position,
        {
            let page = self.prefix[position].page_number;
            let incoming = match self.incoming[page as usize] {
                Some(i) => i,
                None => 0,
            };
            if self.result.claims[incoming].state != RelationshipState::Validated {
                self.prefix.truncate(position);
                self.stop_at(incoming);
                break;
            }
            position = position + 1;
        }
        proof {
            assert forall|k: int| 0 <= k < self.prefix@.len() implies validated_trunk(self.result.claims@, #[trigger] self.prefix@[k]) by {
                let p = self.prefix@[k];
                assert(old(self).prefix@[k] == p);
                let i = self.incoming@[p.page_number as int].unwrap() as int;
                assert(self.result.claims@[i].target == Some(PageIdentity { page_number: p.page_number }));
            }
        }
        if first.value != 0 {
            let mut prefix = Vec::new();
            std::mem::swap(&mut prefix, &mut self.prefix);
            let stop = self.stop;
            self.stop = None;
            self.result.traversals.push(Traversal {
                kind: TraversalKind::Freelist,
                origin: EntityIdentity::Page { page_number: 1 },
                validated_prefix: prefix,
                stop,
            });
        }
        let ghost freelist = self.result.freelist;
        let ghost traversals = self.result.traversals;
        let mut i: usize = 0;
        while i < self.result.claims.len()
            invariant
                self.inv(image, geometry, pages, originals),
                i <= self.result.claims@.len(),
                self.result.claims@ == old(self).result.claims@,
                self.result.relationships@ == validated_relationships(self.result.claims@.subrange(0, i as int)),
                self.result.freelist == freelist,
                self.result.traversals == traversals,
            decreases self.result.claims@.len() - i,
        {
            let claim = self.result.claims[i];
            assert(self.result.claims@.subrange(0, i + 1).drop_last() =~= self.result.claims@.subrange(0, i as int));
            if claim.state == RelationshipState::Validated {
                if let Some(target) = claim.target {
                    self.result.relationships.push(Relationship { claim_id: claim.id, kind: claim.kind, source: claim.source, target });
                }
            }
            i = i + 1;
        }
        assert(self.result.claims@.subrange(0, self.result.claims@.len() as int) =~= self.result.claims@);
        if self.result.freelist.coverage.reason == FreelistCoverageReason::Complete {
            self.result.freelist.coverage.remainder = Some(0);
        }
        match self.result.freelist.coverage.reason {
            FreelistCoverageReason::Budget | FreelistCoverageReason::Cancelled | FreelistCoverageReason::OperatorStop => {},
            _ => control.finish_phase(TopologyPhase::FreelistInspection),
        }
    }

    /// Replaces inventory page `target` by its allocation projection.
    fn project(&mut self, pages: &mut Vec<PageEntity>, target: u32, role: AllocationRole, index: usize, Ghost(image): Ghost<Seq<u8>>, Ghost(geometry): Ghost<DatabaseGeometry>, Ghost(originals): Ghost<Seq<PageEntity>>)
        requires
            old(self).inv(image, geometry, old(pages)@, originals),
            index < old(self).result.claims@.len(),
            old(self).result.claims@[index as int].target == Some(PageIdentity { page_number: target }),
            valid_target(target, geometry, originals),
            old(self).incoming@[target as int] is None,
            old(self).result.freelist.coverage.evaluated_pages < u32::MAX,
        ensures
            final(self).inv(image, geometry, final(pages)@, originals),
            final(self).result.claims@ == old(self).result.claims@.update(index as int, RelationshipClaim {
                state: RelationshipState::Validated,
                ..old(self).result.claims@[index as int]
            }),
            final(self).incoming@ == old(self).incoming@.update(target as int, Some(index)),
            final(self).visited@ == old(self).visited@.push(target),
            final(self).prefix == old(self).prefix,
            incoming_grows(final(self).incoming@, old(self).incoming@),
            final(self).stop == old(self).stop,
            final(self).result.freelist.coverage == (FreelistCoverage {
                evaluated_pages: (old(self).result.freelist.coverage.evaluated_pages + 1) as u32,
                ..old(self).result.freelist.coverage
            }),
            final(self).result.freelist.first_trunk == old(self).result.freelist.first_trunk,
            final(self).result.freelist.declared_count == old(self).result.freelist.declared_count,
            final(self).result.freelist.trunks == old(self).result.freelist.trunks,
            final(self).result.diagnostics == old(self).result.diagnostics,
            final(pages)@[target - 1].detail@.allocation_role == Some(role),
    {
        let k = (target - 1) as usize;
        proof {
            if self.visited@.contains(target) {
                let j = choose|j: int| 0 <= j < self.visited@.len() && self.visited@[j] == target;
                assert(self.incoming@[self.visited@[j] as int] is Some);
            }
            assert(pages@[k as int] == originals[k as int]);
        }
        let regions = frame_regions(&pages[k].detail.regions);
        let detail = PageDetail {
            kind: None,
            allocation_role: Some(role),
            header: None,
            regions,
            cells: Vec::new(),
            freeblocks: Vec::new(),
            diagnostics: Vec::new(),
            coverage: LocalCoverage::Complete,
        };
        let mut projected = PageEntity {
            number: target,
            classification: PageClassification { role: PageRole::Unknown, claims: Vec::new(), referenced: false, reconciled: false },
            detail,
        };
        let ghost before = pages@;
        std::mem::swap(&mut projected.classification, &mut pages[k].classification);
        pages.set(k, projected);
        proof {
            assert(pages@[k as int].classification == originals[k as int].classification);
            assert(frame_regions_of(originals[k as int].detail@.regions).is_prefix_of(pages@[k as int].detail@.regions));
            assert forall|i: int| 0 <= i < pages@.len() && i != k implies pages@[i] == before[i] by {}
        }
        self.incoming.set(target as usize, Some(index));
        self.result.claims[index].state = RelationshipState::Validated;
        self.result.freelist.coverage.evaluated_pages = self.result.freelist.coverage.evaluated_pages + 1;
        let ghost old_visited = self.visited@;
        self.visited = Ghost(self.visited@.push(target));
        proof {
            let claims = self.result.claims@;
            let visited = self.visited@;
            let incoming = self.incoming@;
            assert forall|i: int| 0 <= i < claims.len() implies #[trigger] reads_image(claims[i], image, geometry) by {
                assert(reads_image(old(self).result.claims@[i], image, geometry));
            }
            assert forall|i: int| 0 <= i < claims.len() && #[trigger] claims[i].state == RelationshipState::Validated implies {
                &&& claims[i].target is Some
                &&& valid_target(claims[i].target.unwrap().page_number, geometry, originals)
                &&& incoming[claims[i].target.unwrap().page_number as int] == Some(i as usize)
            } by {
                if i != index {
                    let t = claims[i].target.unwrap().page_number as int;
                    assert(old(self).incoming@[t] == Some(i as usize));
                }
            }
            assert forall|t: int| 0 <= t < incoming.len() && #[trigger] incoming[t] is Some implies {
                &&& incoming[t].unwrap() < claims.len()
                &&& claims[incoming[t].unwrap() as int].target == Some(PageIdentity { page_number: t as u32 })
                &&& visited.contains(t as u32)
            } by {
                if t == target {
                    assert(visited[visited.len() - 1] == target);
                } else {
                    let j = incoming[t].unwrap() as int;
                    assert(old(self).incoming@[t] is Some);
                    assert(claims[j].target == old(self).result.claims@[j].target);
                    assert(old_visited.contains(t as u32));
                    let m = choose|m: int| 0 <= m < old_visited.len() && old_visited[m] == t as u32;
                    assert(visited[m] == t as u32);
                }
            }
            assert forall|m: int| 0 <= m < visited.len() implies {
                &&& 1 <= #[trigger] visited[m] <= originals.len()
                &&& incoming[visited[m] as int] is Some
                &&& valid_target(visited[m], geometry, originals)
                &&& withholds_contents(pages@[visited[m] - 1], originals[visited[m] - 1])
            } by {
                if m < old_visited.len() {
                    assert(visited[m] == old_visited[m]);
                    assert(old_visited[m] != target);
                    assert(pages@[visited[m] - 1] == before[visited[m] - 1]);
                }
            }
            assert forall|i: int| 0 <= i < originals.len() && !visited.contains((i + 1) as u32) implies #[trigger] pages@[i] == originals[i] by {
                if i != k {
                    assert(!old_visited.contains((i + 1) as u32)) by {
                        if old_visited.contains((i + 1) as u32) {
                            let m = choose|m: int| 0 <= m < old_visited.len() && old_visited[m] == (i + 1) as u32;
                            assert(visited[m] == (i + 1) as u32);
                        }
                    }
                    assert(pages@[i] == before[i]);
                } else {
                    assert(visited[visited.len() - 1] == target);
                }
            }
            assert(visited.no_duplicates()) by {
                assert forall|a: int, b: int| 0 <= a < visited.len() && 0 <= b < visited.len() && a != b implies visited[a] != visited[b] by {
                    if a == visited.len() - 1 && b < old_visited.len() {
                        assert(old_visited[b] != target);
                    } else if b == visited.len() - 1 && a < old_visited.len() {
                        assert(old_visited[a] != target);
                    }
                }
            }
            assert forall|m: int| 0 <= m < self.prefix@.len() implies visited.contains(#[trigger] self.prefix@[m].page_number) by {
                assert(old_visited.contains(self.prefix@[m].page_number));
                let q = choose|q: int| 0 <= q < old_visited.len() && old_visited[q] == self.prefix@[m].page_number;
                assert(visited[q] == old_visited[q]);
            }
        }
    }

    /// Reads a field that the chain needs; a read failure is recorded against claim `index`.
    fn required_field(&mut self, image: &[u8], geometry: &DatabaseGeometry, pages: &mut Vec<PageEntity>, page: u32, offset: u32, rule: ValidationRule, index: usize, Ghost(originals): Ghost<Seq<PageEntity>>) -> (r: Option<FreelistField>)
        requires
            old(self).inv(image@, *geometry, old(pages)@, originals),
            index < old(self).result.claims@.len(),
            page >= 1,
            geometry_wf(*geometry),
        ensures
            final(self).inv(image@, *geometry, final(pages)@, originals),
            r == spec_field(image@, *geometry, page, offset, rule),
            r is Some ==> *final(self) == *old(self) && final(pages)@ == old(pages)@,
            r is None ==> final(self).result.freelist.coverage.reason == FreelistCoverageReason::Unreadable,
            r is None ==> final(self).result.claims@[index as int].state == RelationshipState::Unresolved,
            keeps_shape(final(self).result.claims@, old(self).result.claims@),
            final(self).visited == old(self).visited,
            final(self).result.freelist.coverage.evaluated_pages == old(self).result.freelist.coverage.evaluated_pages,
            final(self).result.freelist.trunks == old(self).result.freelist.trunks,
            final(self).result.claims@.len() == old(self).result.claims@.len(),
            forall|i: int| 0 <= i < old(self).result.claims@.len() && i != index ==> final(self).result.claims@[i] == old(self).result.claims@[i],
            final(self).result.freelist.first_trunk == old(self).result.freelist.first_trunk,
            final(self).result.freelist.declared_count == old(self).result.freelist.declared_count,
            final(self).prefix == old(self).prefix,
            incoming_grows(final(self).incoming@, old(self).incoming@),
    {
        let r = field(image, geometry, page, offset, rule);
        if r.is_none() {
            self.read_failure(pages, index, Ghost(image@), Ghost(*geometry), Ghost(originals));
        }
        r
    }
}

} // verus!
