use volmap_sqlite::geometry::decode_geometry;
use volmap_sqlite::inventory::scan_pages;
use volmap_sqlite::signal::StopSignal;
use volmap_sqlite::topology::{
    ClaimId, DiagnosticCode, EntityIdentity, PageIdentity, PhysicalEvidence, Relationship, RelationshipClaim,
    RelationshipKind, RelationshipState, TopologyCoverageReason, TopologyPhase, Traversal, TraversalBudget,
    TraversalKind, TraversalStop, TraversalStopReason, ValidationRule, WorkControl,
};
use volmap_sqlite::structure::inspect_structure;
use volmap_sqlite::allocation::reconcile_storage;
use volmap_sqlite::btree::{AllocationRole, LocalCoverage};
use volmap_sqlite::freelist::{Allocation, FreelistCoverageReason, FreelistEvidence};
use volmap_sqlite::btree::ByteRange;
use volmap_sqlite::tree_links::{
    btree_cycles, btree_traversals, collect_btree_claims, mark_btree_cycles, mark_duplicate_btree_parents,
    validate_btree_claims,
};

const PAGE: usize = 512;

fn header(page_count: u32) -> Vec<u8> {
    let mut h = vec![0u8; 100];
    h[..16].copy_from_slice(b"SQLite format 3\0");
    h[16] = 0x02;
    h[18] = 1;
    h[19] = 1;
    h[21] = 64;
    h[22] = 32;
    h[23] = 32;
    h[24..28].copy_from_slice(&1u32.to_be_bytes());
    h[28..32].copy_from_slice(&page_count.to_be_bytes());
    h[44..48].copy_from_slice(&4u32.to_be_bytes());
    h[56..60].copy_from_slice(&1u32.to_be_bytes());
    h[92..96].copy_from_slice(&1u32.to_be_bytes());
    h
}

/// A table-interior page whose cells point at `children` and whose header points at `rightmost`.
fn interior_page(start: usize, children: &[u32], rightmost: u32) -> Vec<u8> {
    let mut page = vec![0u8; PAGE];
    let mut content = PAGE;
    let mut pointers = Vec::new();
    for (i, child) in children.iter().enumerate() {
        let mut cell = child.to_be_bytes().to_vec();
        cell.push((i + 1) as u8);
        content -= cell.len();
        page[content..content + cell.len()].copy_from_slice(&cell);
        pointers.push(content as u16);
    }
    page[start] = 0x05;
    page[start + 3..start + 5].copy_from_slice(&(children.len() as u16).to_be_bytes());
    page[start + 5..start + 7].copy_from_slice(&(content as u16).to_be_bytes());
    page[start + 8..start + 12].copy_from_slice(&rightmost.to_be_bytes());
    for (i, pointer) in pointers.iter().enumerate() {
        let at = start + 12 + 2 * i;
        page[at..at + 2].copy_from_slice(&pointer.to_be_bytes());
    }
    page
}

fn empty_leaf() -> Vec<u8> {
    let mut page = vec![0u8; PAGE];
    page[0] = 0x0D;
    page[5..7].copy_from_slice(&(PAGE as u16).to_be_bytes());
    page
}

/// Page one is an interior page over `children` and `rightmost`; the other pages are empty leaves.
fn database(children: &[u32], rightmost: u32, pages: u32) -> Vec<u8> {
    let mut image = interior_page(100, children, rightmost);
    image[..100].copy_from_slice(&header(pages));
    for _ in 1..pages {
        image.extend_from_slice(&empty_leaf());
    }
    image
}

fn page_claim(source: u32, target: u32, state: RelationshipState) -> RelationshipClaim {
    RelationshipClaim {
        id: ClaimId::BtreeRightmost { page_number: source },
        kind: RelationshipKind::BtreeChild,
        source: EntityIdentity::Page { page_number: source },
        target: Some(PageIdentity { page_number: target }),
        evidence: PhysicalEvidence {
            page: PageIdentity { page_number: source },
            range: ByteRange { page_offset: 8, file_offset: 8, length: 4 },
            validation_rule: ValidationRule::BtreeInteriorRightmostChild,
        },
        state,
        stop_reason: None,
    }
}

#[test]
fn interior_pages_claim_each_left_child_then_the_rightmost_child() {
    let image = database(&[2], 3, 3);
    let geometry = decode_geometry(&image, image.len() as u64).unwrap();
    let (pages, _) = scan_pages(&image, &geometry, 1000, &StopSignal::new());
    let mut control = WorkControl::new();
    let claims = collect_btree_claims(&pages, &mut control);
    assert_eq!(claims.len(), 2);
    assert_eq!(claims[0].id, ClaimId::BtreeCell { page_number: 1, cell_index: 0 });
    assert_eq!(claims[0].target, Some(PageIdentity { page_number: 2 }));
    assert_eq!(claims[0].evidence.validation_rule, ValidationRule::BtreeInteriorLeftChild);
    assert_eq!(claims[1].id, ClaimId::BtreeRightmost { page_number: 1 });
    assert_eq!(claims[1].target, Some(PageIdentity { page_number: 3 }));
    assert_eq!(claims[1].evidence.range.page_offset, 108);
    assert_eq!(claims[1].evidence.range.length, 4);
    assert!(claims.iter().all(|c| c.state == RelationshipState::Unresolved));
}

#[test]
fn valid_children_validate_and_traversals_follow_them_depth_first() {
    let image = database(&[2], 3, 3);
    let geometry = decode_geometry(&image, image.len() as u64).unwrap();
    let (pages, _) = scan_pages(&image, &geometry, 1000, &StopSignal::new());
    let mut control = WorkControl::new();
    let mut claims = collect_btree_claims(&pages, &mut control);
    let diagnostics = validate_btree_claims(geometry.page_count, &pages, &mut claims, &mut control);
    assert!(diagnostics.is_empty());
    assert!(claims.iter().all(|c| c.state == RelationshipState::Validated));
    let (traversals, used) = btree_traversals(&pages, &claims, true, u32::MAX, 1000, &mut control);
    let paths: Vec<Vec<u32>> =
        traversals.iter().map(|t| t.validated_prefix.iter().map(|p| p.page_number).collect()).collect();
    assert_eq!(paths, vec![vec![1, 2], vec![1, 3]]);
    assert!(traversals.iter().all(|t| t.stop.is_none()));
    assert_eq!(used, 1 + 2 + 2);
}

#[test]
fn a_child_beyond_the_file_is_out_of_range() {
    let image = database(&[2], 9, 2);
    let geometry = decode_geometry(&image, image.len() as u64).unwrap();
    let (pages, _) = scan_pages(&image, &geometry, 1000, &StopSignal::new());
    let mut control = WorkControl::new();
    let mut claims = collect_btree_claims(&pages, &mut control);
    let diagnostics = validate_btree_claims(geometry.page_count, &pages, &mut claims, &mut control);
    assert_eq!(diagnostics.len(), 1);
    assert_eq!(diagnostics[0].code, DiagnosticCode::BtreeChildOutOfRange);
    assert_eq!(claims[1].state, RelationshipState::Unresolved);
    assert_eq!(claims[1].stop_reason, Some(TraversalStopReason::OutOfRange));
    assert_eq!(claims[0].state, RelationshipState::Validated);
    let (traversals, _) = btree_traversals(&pages, &claims, true, u32::MAX, 1000, &mut control);
    let stopped: Vec<_> = traversals.iter().filter(|t| t.stop.is_some()).collect();
    assert_eq!(stopped.len(), 1);
    let stop = stopped[0].stop.unwrap();
    assert_eq!(stop.reason, TraversalStopReason::OutOfRange);
    assert_eq!(stop.intended_target, Some(PageIdentity { page_number: 9 }));
}

#[test]
fn a_page_claimed_by_two_parents_is_withheld_from_both() {
    let image = database(&[2], 2, 2);
    let geometry = decode_geometry(&image, image.len() as u64).unwrap();
    let (pages, _) = scan_pages(&image, &geometry, 1000, &StopSignal::new());
    let mut control = WorkControl::new();
    let mut claims = collect_btree_claims(&pages, &mut control);
    let diagnostics = validate_btree_claims(geometry.page_count, &pages, &mut claims, &mut control);
    assert_eq!(diagnostics.len(), 1);
    assert_eq!(diagnostics[0].code, DiagnosticCode::BtreeDuplicateParent);
    assert_eq!(diagnostics[0].affected_relationships.len(), 2);
    assert!(claims.iter().all(|c| c.state == RelationshipState::Conflicting
        && c.stop_reason == Some(TraversalStopReason::ConflictingClaim)));
}

#[test]
fn duplicate_parents_leave_other_pages_alone() {
    let mut claims = vec![
        page_claim(1, 2, RelationshipState::Validated),
        page_claim(3, 2, RelationshipState::Validated),
        page_claim(1, 3, RelationshipState::Validated),
    ];
    let mut control = WorkControl::new();
    let diagnostics = mark_duplicate_btree_parents(3, &mut claims, &mut control);
    assert_eq!(diagnostics.len(), 1);
    assert_eq!(claims[0].state, RelationshipState::Conflicting);
    assert_eq!(claims[1].state, RelationshipState::Conflicting);
    assert_eq!(claims[2].state, RelationshipState::Validated);
}

#[test]
fn cycles_of_parents_are_found_and_their_links_withheld() {
    let claims = vec![
        page_claim(2, 3, RelationshipState::Validated),
        page_claim(3, 2, RelationshipState::Validated),
        page_claim(1, 4, RelationshipState::Validated),
    ];
    let mut control = WorkControl::new();
    let cycles = btree_cycles(4, &claims, &mut control);
    assert_eq!(cycles, vec![vec![2, 3]]);
    let mut marked = claims.clone();
    let diagnostics = mark_btree_cycles(4, &mut marked, &mut control);
    assert_eq!(diagnostics.len(), 1);
    assert_eq!(diagnostics[0].code, DiagnosticCode::BtreeCycle);
    assert_eq!(marked[0].stop_reason, Some(TraversalStopReason::Cycle));
    assert_eq!(marked[1].state, RelationshipState::Conflicting);
    assert_eq!(marked[2].state, RelationshipState::Validated);
}

#[test]
fn a_stopped_validation_leaves_no_child_validated() {
    let image = database(&[2], 3, 3);
    let geometry = decode_geometry(&image, image.len() as u64).unwrap();
    let (pages, _) = scan_pages(&image, &geometry, 1000, &StopSignal::new());
    let mut control = WorkControl::new();
    let mut claims = collect_btree_claims(&pages, &mut control);
    control.stop();
    let _ = validate_btree_claims(geometry.page_count, &pages, &mut claims, &mut control);
    assert!(claims.iter().all(|c| c.state != RelationshipState::Validated));
}

#[test]
fn the_path_ceiling_stops_a_traversal_with_a_budget_reason() {
    let image = database(&[2], 3, 3);
    let geometry = decode_geometry(&image, image.len() as u64).unwrap();
    let (pages, _) = scan_pages(&image, &geometry, 1000, &StopSignal::new());
    let mut control = WorkControl::new();
    let mut claims = collect_btree_claims(&pages, &mut control);
    let _ = validate_btree_claims(geometry.page_count, &pages, &mut claims, &mut control);
    let (traversals, _) = btree_traversals(&pages, &claims, true, 1, 1000, &mut control);
    assert_eq!(traversals.len(), 2);
    assert!(traversals.iter().all(|t| t.stop.map(|s| s.reason) == Some(TraversalStopReason::Budget)));
    assert!(control.budget_exhausted);
}

#[test]
fn structural_inspection_walks_trees_and_accounts_for_its_work() {
    let image = database(&[2], 3, 3);
    let geometry = decode_geometry(&image, image.len() as u64).unwrap();
    let (mut pages, _) = scan_pages(&image, &geometry, 1000, &StopSignal::new());
    let mut control = WorkControl::new();
    let topology = inspect_structure(&image, &geometry, &mut pages, TraversalBudget::default(), 100, &mut control);
    assert_eq!(topology.coverage.reason, TopologyCoverageReason::Complete);
    assert_eq!(topology.coverage.phase, TopologyPhase::Complete);
    let trees: Vec<Vec<u32>> = topology
        .traversals
        .iter()
        .filter(|t| t.kind == TraversalKind::Btree)
        .map(|t| t.validated_prefix.iter().map(|p| p.page_number).collect())
        .collect();
    assert_eq!(trees, vec![vec![1, 2], vec![1, 3]]);
    assert_eq!(topology.relationships.len(), 2);
    assert!(topology.diagnostics.is_empty());
}

#[test]
fn a_freelist_page_named_by_storage_excludes_both_claims() {
    let image = database(&[2], 3, 3);
    let geometry = decode_geometry(&image, image.len() as u64).unwrap();
    let (mut pages, _) = scan_pages(&image, &geometry, 1000, &StopSignal::new());
    pages[2].detail.allocation_role = Some(AllocationRole::FreelistLeaf);
    let free = RelationshipClaim {
        id: ClaimId::Freelist { page_number: 2, byte: 8 },
        kind: RelationshipKind::FreelistLeaf,
        source: EntityIdentity::Page { page_number: 2 },
        target: Some(PageIdentity { page_number: 3 }),
        evidence: PhysicalEvidence {
            page: PageIdentity { page_number: 2 },
            range: ByteRange { page_offset: 8, file_offset: 520, length: 4 },
            validation_rule: ValidationRule::FreelistLeafPage,
        },
        state: RelationshipState::Validated,
        stop_reason: None,
    };
    let mut freelist = FreelistEvidence::uninspected();
    freelist.coverage.reason = FreelistCoverageReason::Complete;
    let mut allocation = Allocation {
        freelist,
        claims: vec![free],
        relationships: vec![Relationship {
            claim_id: free.id,
            kind: free.kind,
            source: free.source,
            target: PageIdentity { page_number: 3 },
        }],
        traversals: Vec::new(),
        diagnostics: Vec::new(),
    };
    let mut child = page_claim(1, 3, RelationshipState::Invalid);
    child.stop_reason = Some(TraversalStopReason::TypeMismatch);
    let mut storage = vec![child];
    let mut traversals = vec![Traversal {
        kind: TraversalKind::Btree,
        origin: EntityIdentity::Page { page_number: 1 },
        validated_prefix: vec![PageIdentity { page_number: 1 }],
        stop: Some(TraversalStop {
            reason: TraversalStopReason::TypeMismatch,
            claim_id: child.id,
            intended_target: child.target,
        }),
    }];
    let mut control = WorkControl::new();
    reconcile_storage(&mut allocation, &mut pages, &mut storage, &mut traversals, &mut control);
    assert_eq!(storage[0].state, RelationshipState::Conflicting);
    assert_eq!(storage[0].stop_reason, Some(TraversalStopReason::ConflictingClaim));
    assert_eq!(allocation.claims[0].state, RelationshipState::Conflicting);
    assert_eq!(pages[2].detail.allocation_role, Some(AllocationRole::Conflicting));
    assert_eq!(pages[2].detail.coverage, LocalCoverage::Partial);
    assert_eq!(allocation.diagnostics.len(), 1);
    assert_eq!(allocation.diagnostics[0].code, DiagnosticCode::FreelistStorageRoleConflict);
    assert_eq!(allocation.diagnostics[0].affected_relationships, vec![child.id, free.id]);
    assert!(allocation.relationships.is_empty());
    assert_eq!(traversals[0].stop.unwrap().reason, TraversalStopReason::ConflictingClaim);
    assert_eq!(allocation.freelist.coverage.reason, FreelistCoverageReason::InvalidStructure);
}
