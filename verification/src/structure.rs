//! The structural inspection of a whole file, phase by phase: the freelist,
//! B-tree child claims and their traversals, overflow chains, and the
//! topology that gathers them.
use vstd::prelude::*;

use crate::allocation::{page_marked, reconcile_storage, storage_claims_named, storage_reconciled, excluded_through, conflicted_page};
use crate::freelist::{inspect_freelist, numbered, withholds_contents, valid_target};
use crate::geometry::{geometry_wf, DatabaseGeometry};
use crate::inventory::PageEntity;
use crate::links::normalize_relationships;
use crate::overflow::inspect_overflow;
use crate::topology::{
    spec_source_page, RelationshipClaim, RelationshipKind, RelationshipState, Topology, TopologyPhase, TraversalBudget, TraversalKind,
    WorkControl,
};
use crate::tree_links::{
    btree_traversals, btree_verdict, cell_claims, claims_validated, collect_btree_claims, collected, cycles_marked,
    duplicate_parent, inventory_claims, is_interior, left_child_claim, page_claims, pointers_evident, rightmost_claim,
    sound_btree_traversal, traversable, validate_btree_claims, validation_stages, withheld_cycle, withheld_parent,
    traversed_from, tree_root, has_parent,
};
use crate::overflow::{page_origins, traversal_origins};
use crate::topology::{control_kept, EntityIdentity};

verus! {

/// Each claim leads from an inventoried page, names a target, is a
/// B-tree child claim, and is not yet settled.
pub open spec fn unsettled_children(claims: Seq<RelationshipClaim>, lo: int, hi: int) -> bool {
    forall|j: int| 0 <= j < claims.len() ==> {
        &&& lo <= spec_source_page((#[trigger] claims[j]).source) <= hi
        &&& claims[j].target is Some
        &&& claims[j].kind == RelationshipKind::BtreeChild
        &&& claims[j].stop_reason is None
    }
}

proof fn lemma_cell_claims_unsettled(number: u32, cells: Seq<crate::btree::CellDetail>)
    ensures
        unsettled_children(cell_claims(number, cells), number as int, number as int),
    decreases cells.len(),
{
    if cells.len() > 0 {
        lemma_cell_claims_unsettled(number, cells.drop_last());
        let rest = cell_claims(number, cells.drop_last());
        let all = cell_claims(number, cells);
        assert forall|j: int| 0 <= j < all.len() implies {
            &&& number <= spec_source_page((#[trigger] all[j]).source) <= number
            &&& all[j].target is Some
            &&& all[j].kind == RelationshipKind::BtreeChild
            &&& all[j].stop_reason is None
        } by {
            if j < rest.len() {
                assert(all[j] == rest[j]);
            }
        }
    }
}

proof fn lemma_inventory_claims_unsettled(pages: Seq<PageEntity>)
    requires
        numbered(pages),
    ensures
        unsettled_children(inventory_claims(pages), 1, pages.len() as int),
    decreases pages.len(),
{
    if pages.len() > 0 {
        let rest = pages.drop_last();
        assert forall|i: int| 0 <= i < rest.len() implies #[trigger] rest[i].number == i + 1 by {
            assert(rest[i] == pages[i]);
        }
        lemma_inventory_claims_unsettled(rest);
        let page = pages.last();
        assert(page.number == pages.len());
        lemma_cell_claims_unsettled(page.number, page.detail.cells@);
        let before = inventory_claims(rest);
        let own = page_claims(page);
        let all = inventory_claims(pages);
        assert(all == before + own);
        assert forall|j: int| 0 <= j < all.len() implies {
            &&& 1 <= spec_source_page((#[trigger] all[j]).source) <= pages.len()
            &&& all[j].target is Some
            &&& all[j].kind == RelationshipKind::BtreeChild
            &&& all[j].stop_reason is None
        } by {
            if j < before.len() {
                assert(all[j] == before[j]);
            } else {
                assert(all[j] == own[j - before.len()]);
                if is_interior(page.detail.kind) {
                    let cells = cell_claims(page.number, page.detail.cells@);
                    if j - before.len() < cells.len() {
                        assert(own[j - before.len()] == cells[j - before.len()]);
                    }
                }
            }
        }
    }
}

/// Collected claims are ready for validation.
proof fn lemma_collected(pages: Seq<PageEntity>, claims: Seq<RelationshipClaim>)
    requires
        numbered(pages),
        claims.is_prefix_of(inventory_claims(pages)),
    ensures
        collected(pages, claims),
{
    lemma_inventory_claims_unsettled(pages);
    let all = inventory_claims(pages);
    assert forall|j: int| 0 <= j < claims.len() implies {
        &&& 1 <= spec_source_page((#[trigger] claims[j]).source) <= pages.len()
        &&& claims[j].target is Some
        &&& claims[j].kind == RelationshipKind::BtreeChild
        &&& claims[j].stop_reason is None
    } by {
        assert(claims[j] == all[j]);
    }
}

/// Validated claims can be traversed.
proof fn lemma_validated_traversable(page_count: u32, pages: Seq<PageEntity>, olds: Seq<RelationshipClaim>, finals: Seq<RelationshipClaim>, reports: Seq<crate::topology::StructuralDiagnostic>)
    requires
        numbered(pages),
        collected(pages, olds),
        claims_validated(page_count, pages, olds, finals, reports),
    ensures
        traversable(pages, finals),
        forall|j: int| 0 <= j < finals.len() && (#[trigger] finals[j]).state == RelationshipState::Validated ==> finals[j].stop_reason is None,
{
    let (settled, deduplicated, found, cycles) = choose|settled: Seq<RelationshipClaim>, deduplicated: Seq<RelationshipClaim>, found: Seq<crate::topology::StructuralDiagnostic>, cycles: Seq<Seq<u32>>|
        #[trigger] validation_stages(page_count, pages, olds, finals, reports, settled, deduplicated, found, cycles);
    assert(cycles_marked(deduplicated, finals, found, cycles, pages.len() as int, false));
    assert forall|j: int| 0 <= j < finals.len() implies {
        &&& 1 <= spec_source_page((#[trigger] finals[j]).source) <= pages.len()
        &&& finals[j].target is Some
        &&& finals[j].state == RelationshipState::Validated ==> 1 <= finals[j].target.unwrap().page_number <= pages.len()
        &&& finals[j].state != RelationshipState::Validated ==> finals[j].stop_reason is Some
    } by {
        assert(settled[j] == btree_verdict(page_count, pages, olds[j]).0);
        assert(1 <= spec_source_page(olds[j].source) <= pages.len());
        if duplicate_parent(settled, j) {
            assert(deduplicated[j] == withheld_parent(settled[j]));
        } else {
            assert(deduplicated[j] == settled[j]);
        }
        assert(finals[j] == deduplicated[j] || finals[j] == withheld_cycle(deduplicated[j]));
    }
    assert forall|j: int| 0 <= j < finals.len() && (#[trigger] finals[j]).state == RelationshipState::Validated implies finals[j].stop_reason is None by {
        assert(settled[j] == btree_verdict(page_count, pages, olds[j]).0);
        if duplicate_parent(settled, j) {
            assert(deduplicated[j] == withheld_parent(settled[j]));
        } else {
            assert(deduplicated[j] == settled[j]);
        }
        assert(finals[j] == deduplicated[j] || finals[j] == withheld_cycle(deduplicated[j]));
    }
}

/// A sound B-tree traversal stays sound when claims that had not validated
/// are excluded, page kinds are kept, and its stop is restated.
proof fn lemma_sound_kept(
    t: crate::topology::TraversalView,
    pages: Seq<PageEntity>,
    pages2: Seq<PageEntity>,
    claims: Seq<RelationshipClaim>,
    claims2: Seq<RelationshipClaim>,
    complete: bool,
    ids: Seq<crate::topology::ClaimId>,
)
    requires
        sound_btree_traversal(t, pages, claims, complete),
        pages2.len() == pages.len(),
        forall|i: int| 0 <= i < pages.len() ==> (#[trigger] pages2[i]).detail.kind == pages[i].detail.kind,
        claims2.len() == claims.len(),
        forall|j: int| 0 <= j < claims.len() ==> #[trigger] claims2[j] == claims[j]
            || (claims[j].state != RelationshipState::Validated && claims2[j] == crate::allocation::excluded(claims[j])),
    ensures
        sound_btree_traversal(crate::allocation::restopped(t, ids), pages2, claims2, complete),
{
    let r = crate::allocation::restopped(t, ids);
    assert forall|i: int| 0 <= i < r.validated_prefix.len() - 1 implies crate::tree_links::linked_by(claims2, (#[trigger] r.validated_prefix[i]).page_number, r.validated_prefix[i + 1].page_number) by {
        assert(crate::tree_links::linked_by(claims, t.validated_prefix[i].page_number, t.validated_prefix[i + 1].page_number));
        let j = choose|j: int| 0 <= j < claims.len() && (#[trigger] claims[j]).state == RelationshipState::Validated
            && spec_source_page(claims[j].source) == t.validated_prefix[i].page_number
            && claims[j].target == Some(crate::topology::PageIdentity { page_number: t.validated_prefix[i + 1].page_number });
        assert(claims2[j] == claims[j]);
    }
    let root = t.validated_prefix[0].page_number;
    if crate::tree_links::has_parent(claims2, root) {
        let j = choose|j: int| 0 <= j < claims2.len() && (#[trigger] claims2[j]).state == RelationshipState::Validated
            && claims2[j].target == Some(crate::topology::PageIdentity { page_number: root });
        assert(claims2[j] == claims[j]);
        assert(crate::tree_links::has_parent(claims, root));
    }
    assert(pages2[root - 1].detail.kind == pages[root - 1].detail.kind);
    match t.stop {
        Some(stop) => {
            let j = choose|j: int|
                0 <= j < claims.len() && spec_source_page((#[trigger] claims[j]).source) == t.validated_prefix.last().page_number
                    && stop.claim_id == claims[j].id && stop.intended_target == claims[j].target;
            assert(claims2[j].id == claims[j].id && claims2[j].target == claims[j].target && claims2[j].source == claims[j].source);
        },
        None => {
            assert forall|j: int| 0 <= j < claims2.len() implies spec_source_page((#[trigger] claims2[j]).source) != t.validated_prefix.last().page_number by {
                assert(claims2[j].source == claims[j].source);
                assert(spec_source_page(claims[j].source) != t.validated_prefix.last().page_number);
            }
        },
    }
}

/// Projecting freelist pages keeps interior pages' child evidence.
proof fn lemma_projection_keeps_pointers(olds: Seq<PageEntity>, finals: Seq<PageEntity>, geometry: DatabaseGeometry)
    requires
        pointers_evident(olds),
        finals.len() == olds.len(),
        forall|i: int| 0 <= i < olds.len() ==> #[trigger] finals[i] == olds[i] || {
            &&& valid_target((i + 1) as u32, geometry, olds)
            &&& withholds_contents(finals[i], olds[i])
        },
    ensures
        pointers_evident(finals),
{
    assert forall|p: int| 0 <= p < finals.len() && is_interior((#[trigger] finals[p]).detail.kind) implies {
        &&& forall|c: int|
            0 <= c < finals[p].detail.cells@.len() && (#[trigger] finals[p].detail.cells@[c]).left_child is Some
                ==> finals[p].detail.cells@[c].left_child_pointer is Some
        &&& finals[p].detail.header matches Some(h) ==> h.range.page_offset + 8 <= u32::MAX && h.range.file_offset + 8 <= u64::MAX
    } by {
        if finals[p] != olds[p] {
            assert(withholds_contents(finals[p], olds[p]));
            assert(finals[p].detail@.kind is None);
        }
    }
}

/// What storage reconciliation keeps: page kinds, the pages' projection
/// account, claims that it does not exclude, and traversals up to their stop.
proof fn lemma_storage_kept(
    originals: Seq<PageEntity>,
    before: Seq<PageEntity>,
    after: Seq<PageEntity>,
    storage: Seq<RelationshipClaim>,
    storage2: Seq<RelationshipClaim>,
    alloc: crate::freelist::Allocation,
    alloc2: crate::freelist::Allocation,
    ts: Seq<crate::topology::Traversal>,
    ts2: Seq<crate::topology::Traversal>,
    n: int,
    geometry: DatabaseGeometry,
)
    requires
        storage_reconciled(storage, before, alloc, ts, storage2, after, alloc2, ts2, n),
        before.len() == originals.len(),
        originals.len() < u32::MAX,
        forall|i: int| 0 <= i < originals.len() ==> #[trigger] before[i] == originals[i] || {
            &&& valid_target((i + 1) as u32, geometry, originals)
            &&& withholds_contents(before[i], originals[i])
        },
        forall|i: int| 0 <= i < originals.len() ==> (#[trigger] originals[i]).detail.allocation_role is None,
    ensures
        after.len() == originals.len(),
        forall|i: int| 0 <= i < originals.len() ==> #[trigger] after[i] == originals[i] || {
            &&& valid_target((i + 1) as u32, geometry, originals)
            &&& withholds_contents(after[i], originals[i])
        },
        forall|i: int| 0 <= i < before.len() ==> (#[trigger] after[i]).detail.kind == before[i].detail.kind,
        storage2.len() == storage.len(),
        forall|j: int| 0 <= j < storage.len() ==> #[trigger] storage2[j] == storage[j]
            || (storage[j].stop_reason == Some(crate::topology::TraversalStopReason::TypeMismatch)
                && storage2[j] == crate::allocation::excluded(storage[j])),
        ts2.len() == ts.len(),
        forall|k: int| 0 <= k < ts.len() ==> (#[trigger] ts2[k])@ == crate::allocation::restopped(ts[k]@, crate::allocation::conflict_ids(storage, before, alloc.claims@, n)),
{
    assert(excluded_through(storage, before, alloc.claims@, storage2, after, alloc2.claims@, n));
    assert forall|i: int| 0 <= i < originals.len() implies #[trigger] after[i] == originals[i] || {
        &&& valid_target((i + 1) as u32, geometry, originals)
        &&& withholds_contents(after[i], originals[i])
    } by {
        if conflicted_page(storage, before, (i + 1) as u32, n) {
            assert(page_marked(before[i], after[i]));
            let w = choose|w: int| 0 <= w < n && crate::allocation::storage_conflict(#[trigger] storage[w], before)
                && storage[w].target == Some(crate::topology::PageIdentity { page_number: (i + 1) as u32 });
            assert(before[i].detail.allocation_role is Some);
            assert(before[i] != originals[i]);
        }
    }
    assert forall|i: int| 0 <= i < before.len() implies (#[trigger] after[i]).detail.kind == before[i].detail.kind by {
        if conflicted_page(storage, before, (i + 1) as u32, n) {
            assert(page_marked(before[i], after[i]));
        }
    }
}

/// The first `b` traversals follow validated links of the first `n` claims
/// down from tree roots.
pub open spec fn btree_part(
    traversals: Seq<crate::topology::Traversal>,
    b: int,
    pages: Seq<PageEntity>,
    claims: Seq<RelationshipClaim>,
    n: int,
    page_count: u32,
) -> bool {
    &&& 0 <= b <= traversals.len()
    &&& 0 <= n <= claims.len()
    &&& forall|k: int| 0 <= k < b ==> sound_btree_traversal((#[trigger] traversals[k])@, pages, claims.take(n), pages.len() == page_count)
}

/// Work that neither a stop nor the aggregate ceiling cut short.
pub open spec fn uninterrupted(control: WorkControl) -> bool {
    !control.is_stopped() && !control.aggregate_budget_exhausted
}

/// `seen` is `originals` after the freelist projection: each page kept, or a
/// valid freelist target with its contents withheld.
pub open spec fn projected_from(seen: Seq<PageEntity>, originals: Seq<PageEntity>, geometry: DatabaseGeometry) -> bool {
    &&& seen.len() == originals.len()
    &&& forall|i: int| 0 <= i < originals.len() ==> #[trigger] seen[i] == originals[i] || {
        &&& valid_target((i + 1) as u32, geometry, originals)
        &&& withholds_contents(seen[i], originals[i])
    }
}

/// The traversals of a structural inspection: the first `b` are B-tree
/// traversals over the first `n` claims, the next up to `e` the overflow
/// traversals, read over the pages `seen` as the freelist projection left
/// them. Unless the work was cut short (`finished` false), every tree root
/// starts a B-tree traversal and every spilling cell, in inventory order,
/// starts an overflow traversal.
pub open spec fn structure_parts(
    traversals: Seq<crate::topology::Traversal>,
    b: int,
    e: int,
    pages: Seq<PageEntity>,
    claims: Seq<RelationshipClaim>,
    n: int,
    geometry: DatabaseGeometry,
    seen: Seq<PageEntity>,
    originals: Seq<PageEntity>,
    finished: bool,
) -> bool {
    let whole = seen.len() == geometry.page_count;
    &&& btree_part(traversals, b, pages, claims, n, geometry.page_count)
    &&& b <= e <= traversals.len()
    &&& projected_from(seen, originals, geometry)
    &&& finished ==> forall|q: u32| #[trigger] tree_root(seen, claims.take(n), whole, q)
        ==> traversed_from(traversals.take(b), q)
    &&& finished ==> traversal_origins(traversals.subrange(b, e)) == page_origins(seen, seen.len() as int)
}

/// Inspects the structure of the whole file: the freelist first, then the
/// B-tree child claims, their validation and traversals, then the overflow
/// chains. Validated freelist pages are projected in `pages`. A stop, or the
/// aggregate traversal ceiling, ends the work at a phase boundary, and the
/// coverage says where.
#[verifier::rlimit(60)]
pub fn inspect_structure(
    image: &[u8],
    geometry: &DatabaseGeometry,
    pages: &mut Vec<PageEntity>,
    budget: TraversalBudget,
    max_trunks: u32,
    control: &mut WorkControl,
) -> (r: Topology)
    requires
        geometry_wf(*geometry),
        image@.len() == geometry.file_length,
        numbered(old(pages)@),
        pointers_evident(old(pages)@),
        forall|i: int| 0 <= i < old(pages)@.len() ==> (#[trigger] old(pages)@[i]).detail.allocation_role is None,
    ensures
        final(pages)@.len() == old(pages)@.len(),
        forall|i: int| 0 <= i < old(pages)@.len() ==> #[trigger] final(pages)@[i] == old(pages)@[i] || {
            &&& valid_target((i + 1) as u32, *geometry, old(pages)@)
            &&& withholds_contents(final(pages)@[i], old(pages)@[i])
        },
        r.coverage == final(control).spec_coverage(budget),
        r.pointer_map is None,
        r.classifications@.len() == 0,
        exists|b: int, e: int, n: int, seen: Seq<PageEntity>| #[trigger] structure_parts(r.traversals@, b, e, final(pages)@, r.claims@, n, *geometry, seen, old(pages)@,
            uninterrupted(*final(control))),
{
    let mut allocation = inspect_freelist(image, geometry, pages, budget, max_trunks, control);
    let allocation_pages = allocation.freelist.coverage.evaluated_pages as u64;
    let mut topology = Topology::empty(budget);
    std::mem::swap(&mut topology.freelist, &mut allocation.freelist);
    if control.stopped() || control.is_aggregate_budget_exhausted() {
        topology.claims = allocation.claims;
        topology.relationships = allocation.relationships;
        topology.traversals = allocation.traversals;
        topology.diagnostics = allocation.diagnostics;
        topology.coverage = control.coverage(budget);
        assert(btree_part(topology.traversals@, 0, pages@, topology.claims@, 0, geometry.page_count));
        assert(structure_parts(topology.traversals@, 0, 0, pages@, topology.claims@, 0, *geometry, pages@, old(pages)@,
            uninterrupted(*control)));
        return topology;
    }
    std::mem::swap(&mut topology.freelist, &mut allocation.freelist);
    let ghost projected = pages@;
    proof {
        lemma_projection_keeps_pointers(old(pages)@, pages@, *geometry);
        assert forall|i: int| 0 <= i < pages@.len() implies #[trigger] pages@[i].number == i + 1 by {
            assert(old(pages)@[i].number == i + 1);
        }
    }
    let mut claims = collect_btree_claims(pages, control);
    proof {
        lemma_collected(pages@, claims@);
    }
    let ghost collected_claims = claims@;
    let mut diagnostics = validate_btree_claims(geometry.page_count, pages, &mut claims, control);
    let ghost validated = claims@;
    let ghost reports = diagnostics@;
    let (mut relationships, complete) = normalize_relationships(&claims, TopologyPhase::BtreeRelationshipNormalization, control);
    let complete_inventory = pages.len() == geometry.page_count as usize;
    let mut traversals = Vec::new();
    let mut traversal_pages: u64 = 0;
    if complete && !control.stopped() {
        proof {
            lemma_validated_traversable(geometry.page_count, pages@, collected_claims, validated, reports);
        }
        let found = btree_traversals(
            pages,
            &claims,
            complete_inventory,
            budget.max_btree_pages(),
            if budget.max_total_pages() >= allocation_pages { budget.max_total_pages() - allocation_pages } else { 0 },
            control,
        );
        traversals = found.0;
        traversal_pages = found.1;
    }
    let ghost btree_count = traversals@.len() as int;
    let ghost btree_claims = claims@;
    let ghost tree_traversals = traversals@;
    let ghost traversal_control = *control;
    let ghost whole = projected.len() == geometry.page_count;
    assert(!traversal_control.is_stopped() && !traversal_control.aggregate_budget_exhausted ==> forall|q: u32|
        #[trigger] tree_root(projected, btree_claims, whole, q) ==> traversed_from(tree_traversals, q));
    let ghost mut overflow_end = btree_count;
    let ghost mut overflow_control = *control;
    proof {
        if btree_count > 0 {
            lemma_validated_traversable(geometry.page_count, pages@, collected_claims, validated, reports);
        }
    }
    if !(control.stopped() || control.is_aggregate_budget_exhausted()) {
        let mut overflow = inspect_overflow(
            image,
            geometry,
            pages,
            budget,
            if traversal_pages <= u64::MAX - allocation_pages { traversal_pages + allocation_pages } else { u64::MAX },
            control,
        );
        let (mut overflow_relationships, _) = normalize_relationships(
            &overflow.claims,
            TopologyPhase::OverflowRelationshipNormalization,
            control,
        );
        proof {
            overflow_control = *control;
        }
        relationships.append(&mut overflow_relationships);
        claims.append(&mut overflow.claims);
        let ghost overflow_traversals = overflow.traversals@;
        traversals.append(&mut overflow.traversals);
        diagnostics.append(&mut overflow.diagnostics);
        proof {
            overflow_end = traversals@.len() as int;
            assert(traversals@.subrange(btree_count, overflow_end) =~= overflow_traversals);
            assert(!overflow_control.is_stopped() && !overflow_control.aggregate_budget_exhausted
                ==> traversal_origins(traversals@.subrange(btree_count, overflow_end)) == page_origins(projected, projected.len() as int));
        }
    } else {
        proof {
            overflow_control = *control;
            assert(overflow_control.is_stopped() || overflow_control.aggregate_budget_exhausted);
        }
    }
    let ghost joined_claims = claims@;
    let ghost joined_traversals = traversals@;
    let ghost before_storage = pages@;
    let ghost mut ids: Seq<crate::topology::ClaimId> = seq![];
    if !(control.stopped() || control.is_aggregate_budget_exhausted()) && storage_claims_named(&claims, pages, &allocation) {
        let ghost alloc = allocation;
        reconcile_storage(&mut allocation, pages, &mut claims, &mut traversals, control);
        proof {
            let n = choose|n: int| #[trigger] storage_reconciled(joined_claims, before_storage, alloc, joined_traversals, claims@, pages@, allocation, traversals@, n)
                && (!control.is_stopped() ==> n == joined_claims.len());
            ids = crate::allocation::conflict_ids(joined_claims, before_storage, alloc.claims@, n);
            lemma_storage_kept(old(pages)@, before_storage, pages@, joined_claims, claims@, alloc, allocation, joined_traversals, traversals@, n, *geometry);
        }
    } else {
        proof {
            assert forall|k: int| 0 <= k < joined_traversals.len() implies (#[trigger] traversals@[k])@ == crate::allocation::restopped(joined_traversals[k]@, ids) by {}
            assert forall|j: int| 0 <= j < joined_claims.len() implies #[trigger] claims@[j] == joined_claims[j]
                || (joined_claims[j].stop_reason == Some(crate::topology::TraversalStopReason::TypeMismatch)
                    && claims@[j] == crate::allocation::excluded(joined_claims[j])) by {}
        }
    }
    let ghost stored_claims = claims@;
    let ghost stored_traversals = traversals@;
    relationships.append(&mut allocation.relationships);
    claims.append(&mut allocation.claims);
    traversals.append(&mut allocation.traversals);
    diagnostics.append(&mut allocation.diagnostics);
    control.complete();
    std::mem::swap(&mut topology.freelist, &mut allocation.freelist);
    topology.claims = claims;
    topology.relationships = relationships;
    topology.traversals = traversals;
    topology.diagnostics = diagnostics;
    topology.coverage = control.coverage(budget);
    proof {
        let n = btree_claims.len() as int;
        if btree_count > 0 {
            assert forall|k: int| 0 <= k < btree_count implies sound_btree_traversal(
                (#[trigger] topology.traversals@[k])@,
                pages@,
                topology.claims@.take(n),
                pages@.len() == geometry.page_count,
            ) by {
                assert(topology.traversals@[k] == stored_traversals[k]);
                assert(joined_traversals[k] == tree_traversals[k]);
                assert(stored_traversals[k]@ == crate::allocation::restopped(tree_traversals[k]@, ids));
                assert forall|j: int| 0 <= j < n implies #[trigger] topology.claims@.take(n)[j] == btree_claims[j]
                    || (btree_claims[j].state != RelationshipState::Validated
                        && topology.claims@.take(n)[j] == crate::allocation::excluded(btree_claims[j])) by {
                    assert(topology.claims@.take(n)[j] == stored_claims[j]);
                    assert(joined_claims[j] == btree_claims[j]);
                }
                lemma_sound_kept(tree_traversals[k]@, projected, pages@, btree_claims, topology.claims@.take(n), pages@.len() == geometry.page_count, ids);
            }
        }
        assert(btree_part(topology.traversals@, btree_count, pages@, topology.claims@, n, geometry.page_count));
        let finished = uninterrupted(*control);
        assert(control_kept(overflow_control, *control));
        assert(control_kept(traversal_control, overflow_control));
        assert forall|k: int| 0 <= k < overflow_end implies (#[trigger] topology.traversals@[k])@.origin == joined_traversals[k]@.origin by {
            assert(topology.traversals@[k] == stored_traversals[k]);
        }
        assert forall|j: int| 0 <= j < n implies #[trigger] topology.claims@.take(n)[j] == btree_claims[j]
            || (btree_claims[j].state != RelationshipState::Validated
                && topology.claims@.take(n)[j] == crate::allocation::excluded(btree_claims[j])) by {
            assert(topology.claims@.take(n)[j] == stored_claims[j]);
            assert(joined_claims[j] == btree_claims[j]);
        }
        if finished {
            assert forall|q: u32| #[trigger] tree_root(projected, topology.claims@.take(n), whole, q)
                implies traversed_from(topology.traversals@.take(btree_count), q) by {
                if has_parent(btree_claims, q) {
                    let j = choose|j: int| 0 <= j < btree_claims.len() && (#[trigger] btree_claims[j]).state == RelationshipState::Validated
                        && btree_claims[j].target == Some(crate::topology::PageIdentity { page_number: q });
                    assert(topology.claims@.take(n)[j] == btree_claims[j]);
                }
                assert(tree_root(projected, btree_claims, whole, q));
                assert(traversed_from(tree_traversals, q));
                let k = choose|k: int| 0 <= k < tree_traversals.len() && (#[trigger] tree_traversals[k])@.origin == (EntityIdentity::Page { page_number: q });
                assert(joined_traversals[k] == tree_traversals[k]);
                assert(topology.traversals@.take(btree_count)[k] == topology.traversals@[k]);
            }
            assert(traversal_origins(topology.traversals@.subrange(btree_count, overflow_end))
                =~= traversal_origins(joined_traversals.subrange(btree_count, overflow_end)));
        }
        assert(structure_parts(topology.traversals@, btree_count, overflow_end, pages@, topology.claims@, n, *geometry, projected, old(pages)@, finished));
    }
    topology
}

} // verus!
