//! Pointer-map evidence of an auto-vacuum database: where the map pages lie,
//! what each entry says about its page, and how that agrees with the
//! relationships found in the file.
use vstd::prelude::*;

use crate::btree::ByteRange;
use crate::bytes::be32;
use crate::freelist::FreelistField;
use crate::geometry::{geometry_wf, lock_page, map_for, spec_lock_page, spec_map_for, DatabaseGeometry};
use crate::roles::{evidence, reserved_role, spec_evidence, spec_reserved_role, PageRole};
use crate::freelist::FreelistCoverageReason;
use crate::topology::control_kept;
use crate::topology::{
    spec_source_page, EntityIdentity, PageIdentity, PhysicalEvidence, RelationshipClaim, RelationshipKind, RelationshipState,
    Topology, TopologyCoverageReason, TopologyPhase, TraversalStopReason, ValidationRule, WorkControl,
};

verus! {

/// The page type that a pointer-map entry records.
#[derive(Clone, Copy, Debug, PartialEq, Eq, Structural)]
pub enum PointerMapKind {
    BtreeRoot,
    Freelist,
    FirstOverflow,
    Overflow,
    BtreeChild,
}

pub open spec fn spec_map_kind(raw: u8) -> Option<PointerMapKind> {
    if raw == 1 {
        Some(PointerMapKind::BtreeRoot)
    } else if raw == 2 {
        Some(PointerMapKind::Freelist)
    } else if raw == 3 {
        Some(PointerMapKind::FirstOverflow)
    } else if raw == 4 {
        Some(PointerMapKind::Overflow)
    } else if raw == 5 {
        Some(PointerMapKind::BtreeChild)
    } else {
        None
    }
}

/// SQLite's pointer-map type codes: 1 a B-tree root, 2 a freelist page, 3 the
/// first overflow page of a cell, 4 a later overflow page, 5 a B-tree child;
/// each code names a different kind and no other code names one.
pub proof fn law_pointer_map_codes(a: u8, b: u8)
    ensures
        spec_map_kind(1) == Some(PointerMapKind::BtreeRoot),
        spec_map_kind(2) == Some(PointerMapKind::Freelist),
        spec_map_kind(3) == Some(PointerMapKind::FirstOverflow),
        spec_map_kind(4) == Some(PointerMapKind::Overflow),
        spec_map_kind(5) == Some(PointerMapKind::BtreeChild),
        !(1 <= a <= 5) ==> spec_map_kind(a) is None,
        spec_map_kind(a) is Some && spec_map_kind(a) == spec_map_kind(b) ==> a == b,
{
}

/// Decodes the type byte of a pointer-map entry.
pub fn map_kind(raw: u8) -> (r: Option<PointerMapKind>)
    ensures
        r == spec_map_kind(raw),
        raw == 1 ==> r == Some(PointerMapKind::BtreeRoot),
        raw == 2 ==> r == Some(PointerMapKind::Freelist),
        raw == 3 ==> r == Some(PointerMapKind::FirstOverflow),
        raw == 4 ==> r == Some(PointerMapKind::Overflow),
        raw == 5 ==> r == Some(PointerMapKind::BtreeChild),
        r is Some <==> (1 <= raw <= 5),
{
    match raw {
        1 => Some(PointerMapKind::BtreeRoot),
        2 => Some(PointerMapKind::Freelist),
        3 => Some(PointerMapKind::FirstOverflow),
        4 => Some(PointerMapKind::Overflow),
        5 => Some(PointerMapKind::BtreeChild),
        _ => None,
    }
}

/// What each pointer-map kind says of its page: roots and children are B-tree
/// pages, freelist entries freelist pages, and both overflow kinds overflow
/// pages.
pub proof fn law_pointer_map_roles()
    ensures
        PointerMapKind::BtreeRoot.spec_role() == PageRole::Btree,
        PointerMapKind::BtreeChild.spec_role() == PageRole::Btree,
        PointerMapKind::Freelist.spec_role() == PageRole::Freelist,
        PointerMapKind::FirstOverflow.spec_role() == PageRole::Overflow,
        PointerMapKind::Overflow.spec_role() == PageRole::Overflow,
{
}

impl PointerMapKind {
    pub open spec fn spec_role(self) -> PageRole {
        match self {
            PointerMapKind::BtreeRoot | PointerMapKind::BtreeChild => PageRole::Btree,
            PointerMapKind::Freelist => PageRole::Freelist,
            PointerMapKind::FirstOverflow | PointerMapKind::Overflow => PageRole::Overflow,
        }
    }

    /// The role an entry of this kind claims for its page.
    pub fn role(self) -> (r: PageRole)
        ensures
            r == self.spec_role(),
    {
        match self {
            PointerMapKind::BtreeRoot | PointerMapKind::BtreeChild => PageRole::Btree,
            PointerMapKind::Freelist => PageRole::Freelist,
            PointerMapKind::FirstOverflow | PointerMapKind::Overflow => PageRole::Overflow,
        }
    }
}

/// What is wrong with a pointer map, one of its pages, or one of its entries.
#[derive(Clone, Copy, Debug, PartialEq, Eq, Structural)]
pub enum PointerMapDiagnostic {
    InvalidLargestRoot,
    IncrementalWithoutAutoVacuum,
    Truncated,
    InvalidKind,
    TargetOutOfRange,
    InvalidParent,
    RootAboveLargestRoot,
    ParentMismatch,
    MissingForwardLink,
    ParentRoleConflict,
}

impl PointerMapDiagnostic {
    pub open spec fn spec_code(self) -> Seq<char> {
        match self {
            PointerMapDiagnostic::InvalidLargestRoot => "pointer_map_invalid_largest_root"@,
            PointerMapDiagnostic::IncrementalWithoutAutoVacuum => "pointer_map_incremental_without_auto_vacuum"@,
            PointerMapDiagnostic::Truncated => "pointer_map_truncated"@,
            PointerMapDiagnostic::InvalidKind => "pointer_map_invalid_kind"@,
            PointerMapDiagnostic::TargetOutOfRange => "pointer_map_target_out_of_range"@,
            PointerMapDiagnostic::InvalidParent => "pointer_map_invalid_parent"@,
            PointerMapDiagnostic::RootAboveLargestRoot => "pointer_map_root_above_largest_root"@,
            PointerMapDiagnostic::ParentMismatch => "pointer_map_parent_mismatch"@,
            PointerMapDiagnostic::MissingForwardLink => "pointer_map_missing_forward_link"@,
            PointerMapDiagnostic::ParentRoleConflict => "pointer_map_parent_role_conflict"@,
        }
    }

    /// The stable code under which the diagnostic is reported.
    pub fn code(self) -> (r: &'static str)
        ensures
            r@ == self.spec_code(),
    {
        match self {
            PointerMapDiagnostic::InvalidLargestRoot => "pointer_map_invalid_largest_root",
            PointerMapDiagnostic::IncrementalWithoutAutoVacuum => "pointer_map_incremental_without_auto_vacuum",
            PointerMapDiagnostic::Truncated => "pointer_map_truncated",
            PointerMapDiagnostic::InvalidKind => "pointer_map_invalid_kind",
            PointerMapDiagnostic::TargetOutOfRange => "pointer_map_target_out_of_range",
            PointerMapDiagnostic::InvalidParent => "pointer_map_invalid_parent",
            PointerMapDiagnostic::RootAboveLargestRoot => "pointer_map_root_above_largest_root",
            PointerMapDiagnostic::ParentMismatch => "pointer_map_parent_mismatch",
            PointerMapDiagnostic::MissingForwardLink => "pointer_map_missing_forward_link",
            PointerMapDiagnostic::ParentRoleConflict => "pointer_map_parent_role_conflict",
        }
    }
}

/// Where the map pages recur.
#[derive(Clone, Copy, Debug, PartialEq, Eq, Structural)]
pub struct PointerMapLayout {
    pub entries_per_page: u32,
    pub stride: u32,
    /// The map that moved off the lock-byte page, if the file reaches it.
    pub displaced_map: Option<PageIdentity>,
    pub next_regular_after_displaced: Option<PageIdentity>,
}

/// One five-byte entry: the page it describes, its type and its parent.
pub struct PointerMapEntry {
    pub target: EntityIdentity,
    pub raw_kind: u8,
    pub kind: Option<PointerMapKind>,
    pub parent_value: Option<u32>,
    pub parent: Option<EntityIdentity>,
    pub evidence: PhysicalEvidence,
    pub state: RelationshipState,
    pub diagnostics: Vec<PointerMapDiagnostic>,
}

/// One pointer-map page and the entries read from it.
pub struct PointerMapPage {
    pub page: PageIdentity,
    pub entries: Vec<PointerMapEntry>,
    pub complete: bool,
    pub diagnostics: Vec<PointerMapDiagnostic>,
}

/// The pointer map of the database as far as it was inspected.
pub struct PointerMapEvidence {
    pub applicable: bool,
    pub diagnostics: Vec<PointerMapDiagnostic>,
    /// The map pages reached by inspection, in file order.
    pub locations: Vec<PageIdentity>,
    pub layout: Option<PointerMapLayout>,
    pub lock_byte_page: Option<PageIdentity>,
    pub pages: Vec<PointerMapPage>,
    pub complete: bool,
    pub largest_root: FreelistField,
    pub incremental_vacuum: FreelistField,
}

/// The map layout of an auto-vacuum database; `None` when the database keeps
/// no pointer map.
pub open spec fn spec_layout(g: DatabaseGeometry) -> Option<PointerMapLayout> {
    if g.largest_root_page == 0 {
        None
    } else {
        let stride = g.usable_size / 5 + 1;
        let lock = spec_lock_page(g.page_size as int);
        let displaced = lock + 1 <= g.page_count && spec_map_for(g, lock) == Some(lock + 1);
        Some(PointerMapLayout {
            entries_per_page: (g.usable_size / 5) as u32,
            stride: stride as u32,
            displaced_map: if displaced { Some(PageIdentity { page_number: (lock + 1) as u32 }) } else { None },
            next_regular_after_displaced: if displaced && lock + stride <= g.page_count {
                Some(PageIdentity { page_number: (lock + stride) as u32 })
            } else {
                None
            },
        })
    }
}

/// The diagnostics the database header alone supports.
pub open spec fn header_diagnostics(g: DatabaseGeometry) -> Seq<PointerMapDiagnostic> {
    (if g.largest_root_page > g.page_count || spec_reserved_role(g, g.largest_root_page) is Some {
        seq![PointerMapDiagnostic::InvalidLargestRoot]
    } else {
        seq![]
    }) + (if g.largest_root_page == 0 && g.incremental_vacuum != 0 {
        seq![PointerMapDiagnostic::IncrementalWithoutAutoVacuum]
    } else {
        seq![]
    })
}

/// The header facts of a pointer map, before any map page is read.
pub open spec fn is_header(e: PointerMapEvidence, g: DatabaseGeometry) -> bool {
    let lock = spec_lock_page(g.page_size as int);
    &&& e.applicable == (g.largest_root_page != 0)
    &&& e.diagnostics@ == header_diagnostics(g)
    &&& e.layout == spec_layout(g)
    &&& e.lock_byte_page == if lock <= g.page_count { Some(PageIdentity { page_number: lock as u32 }) } else { None }
    &&& e.largest_root == (FreelistField {
        value: g.largest_root_page,
        evidence: spec_evidence(g, 1, 52, 4, ValidationRule::HeaderLargestRoot),
    })
    &&& e.incremental_vacuum == (FreelistField {
        value: g.incremental_vacuum,
        evidence: spec_evidence(g, 1, 64, 4, ValidationRule::HeaderIncrementalVacuum),
    })
}

impl PointerMapEvidence {
    /// What the database header says of the pointer map: whether there is
    /// one, its layout, and the two header fields it rests on.
    pub fn header(geometry: &DatabaseGeometry) -> (r: Self)
        requires
            geometry_wf(*geometry),
        ensures
            is_header(r, *geometry),
            r.locations@.len() == 0,
            r.pages@.len() == 0,
            r.complete == (geometry.largest_root_page == 0),
    {
        let mut diagnostics = Vec::new();
        if geometry.largest_root_page > geometry.page_count || reserved_role(geometry, geometry.largest_root_page).is_some() {
            diagnostics.push(PointerMapDiagnostic::InvalidLargestRoot);
        }
        if geometry.largest_root_page == 0 && geometry.incremental_vacuum != 0 {
            diagnostics.push(PointerMapDiagnostic::IncrementalWithoutAutoVacuum);
        }
        let lock = lock_page(geometry);
        let layout = if geometry.largest_root_page != 0 {
            let stride = geometry.usable_size / 5 + 1;
            let displaced = lock + 1 <= geometry.page_count && map_for(geometry, lock) == Some(lock + 1);
            Some(PointerMapLayout {
                entries_per_page: geometry.usable_size / 5,
                stride,
                displaced_map: if displaced { Some(PageIdentity { page_number: lock + 1 }) } else { None },
                next_regular_after_displaced: if displaced && lock + stride <= geometry.page_count {
                    Some(PageIdentity { page_number: lock + stride })
                } else {
                    None
                },
            })
        } else {
            None
        };
        proof {
            assert(diagnostics@ =~= header_diagnostics(*geometry));
        }
        PointerMapEvidence {
            applicable: geometry.largest_root_page != 0,
            diagnostics,
            locations: Vec::new(),
            layout,
            lock_byte_page: if lock <= geometry.page_count { Some(PageIdentity { page_number: lock }) } else { None },
            pages: Vec::new(),
            complete: geometry.largest_root_page == 0,
            largest_root: FreelistField {
                value: geometry.largest_root_page,
                evidence: evidence(geometry, 1, 52, 4, ValidationRule::HeaderLargestRoot),
            },
            incremental_vacuum: FreelistField {
                value: geometry.incremental_vacuum,
                evidence: evidence(geometry, 1, 64, 4, ValidationRule::HeaderIncrementalVacuum),
            },
        }
    }
}

/// Whether map page `number` lies past the end of the file.
pub open spec fn map_truncated(g: DatabaseGeometry, number: u32) -> bool {
    g.file_length < number * g.page_size
}

/// How far entries of map page `number` may reach: a truncated map may
/// still describe pages the header declares.
pub open spec fn target_limit(g: DatabaseGeometry, number: u32) -> int {
    if map_truncated(g, number) {
        if g.page_count >= g.declared_page_count { g.page_count as int } else { g.declared_page_count as int }
    } else {
        g.page_count as int
    }
}

/// The entry positions of map page `number` to read, from `index` on: the
/// pages that follow the map and that it describes, up to `limit`, leaving
/// out the lock-byte page.
pub open spec fn entry_schedule(g: DatabaseGeometry, number: u32, limit: int, index: int) -> Seq<int>
    decreases g.usable_size / 5 - index,
{
    if index < 0 || index >= g.usable_size / 5 {
        seq![]
    } else {
        let target = number + index + 1;
        if target > u32::MAX || target > limit || spec_map_for(g, target) != Some(number as int) {
            seq![]
        } else if target == spec_lock_page(g.page_size as int) {
            entry_schedule(g, number, limit, index + 1)
        } else {
            seq![index] + entry_schedule(g, number, limit, index + 1)
        }
    }
}

/// The file offset of entry `index` of map page `number`.
pub open spec fn entry_offset(g: DatabaseGeometry, number: u32, index: int) -> int {
    (number - 1) * g.page_size + index * 5
}

/// `e` is entry `index` of map page `number` as the image holds it; an
/// entry cut short by the end of the file has no parent.
pub open spec fn read_entry(e: PointerMapEntry, image: Seq<u8>, g: DatabaseGeometry, number: u32, index: int) -> bool {
    let at = entry_offset(g, number, index);
    let available = if image.len() - at < 5 { image.len() - at } else { 5 };
    &&& 0 < available
    &&& e.target == (EntityIdentity::Page { page_number: (number + index + 1) as u32 })
    &&& e.raw_kind == image[at]
    &&& e.kind == spec_map_kind(image[at])
    &&& e.parent_value == if available == 5 { Some(be32(image, at + 1) as u32) } else { None::<u32> }
    &&& e.parent == match e.parent_value {
        Some(p) => if p != 0 { Some(EntityIdentity::Page { page_number: p }) } else { None },
        None => None,
    }
    &&& e.evidence == (PhysicalEvidence {
        page: PageIdentity { page_number: number },
        range: ByteRange { page_offset: (index * 5) as u32, file_offset: at as u64, length: available as u32 },
        validation_rule: ValidationRule::PointerMapEntry,
    })
    &&& e.state == RelationshipState::Unresolved
    &&& e.diagnostics@.len() == 0
}

/// `map` is map page `number` as inspection read it: a prefix of its scheduled
/// entries, complete only when all were read from a page the file holds.
pub open spec fn inspected_page(map: PointerMapPage, image: Seq<u8>, g: DatabaseGeometry, number: u32) -> bool {
    let schedule = entry_schedule(g, number, target_limit(g, number), 0);
    &&& map.page == PageIdentity { page_number: number }
    &&& map.entries@.len() <= schedule.len()
    &&& forall|k: int| 0 <= k < map.entries@.len() ==> read_entry(#[trigger] map.entries@[k], image, g, number, schedule[k])
    &&& map.diagnostics@ == if map_truncated(g, number) { seq![PointerMapDiagnostic::Truncated] } else { seq![] }
    &&& map.complete == (!map_truncated(g, number) && map.entries@.len() == schedule.len())
}

/// Reads the entries of map page `number`. A stop ends the reading early.
pub fn inspect_page(image: &[u8], geometry: &DatabaseGeometry, number: u32, control: &mut WorkControl) -> (map: PointerMapPage)
    requires
        geometry_wf(*geometry),
        image@.len() == geometry.file_length,
        number >= 1,
    ensures
        inspected_page(map, image@, *geometry, number),
        control_kept(*old(control), *final(control)),
        ({
            let schedule = entry_schedule(*geometry, number, target_limit(*geometry, number), 0);
            map.entries@.len() < schedule.len() ==> final(control).is_stopped()
                || entry_offset(*geometry, number, schedule[map.entries@.len() as int]) >= image@.len()
        }),
{
    proof {
        assert(number as u64 * geometry.page_size as u64 <= 0xffff_ffffu64 * 65536) by (nonlinear_arith)
            requires number <= 0xffff_ffffu32, geometry.page_size <= 65536;
    }
    let truncated = geometry.file_length < number as u64 * geometry.page_size as u64;
    let mut diagnostics = Vec::new();
    if truncated {
        diagnostics.push(PointerMapDiagnostic::Truncated);
    }
    let limit: u32 = if truncated {
        if geometry.page_count >= geometry.declared_page_count { geometry.page_count } else { geometry.declared_page_count }
    } else {
        geometry.page_count
    };
    let (entries, full) = read_entries(image, geometry, number, limit, control);
    proof {
        if truncated {
            assert(diagnostics@ =~= seq![PointerMapDiagnostic::Truncated]);
        } else {
            assert(diagnostics@ =~= Seq::<PointerMapDiagnostic>::empty());
        }
    }
    PointerMapPage { page: PageIdentity { page_number: number }, entries, complete: !truncated && full, diagnostics }
}

fn read_entries(image: &[u8], geometry: &DatabaseGeometry, number: u32, limit: u32, control: &mut WorkControl) -> (r: (Vec<PointerMapEntry>, bool))
    requires
        geometry_wf(*geometry),
        image@.len() == geometry.file_length,
        number >= 1,
    ensures
        control_kept(*old(control), *final(control)),
        ({
            let schedule = entry_schedule(*geometry, number, limit as int, 0);
            &&& r.0@.len() <= schedule.len()
            &&& forall|k: int| 0 <= k < r.0@.len() ==> read_entry(#[trigger] r.0@[k], image@, *geometry, number, schedule[k])
            &&& r.1 == (r.0@.len() == schedule.len())
            &&& r.0@.len() < schedule.len() ==> final(control).is_stopped()
                || entry_offset(*geometry, number, schedule[r.0@.len() as int]) >= image@.len()
        }),
{
    let ghost all = entry_schedule(*geometry, number, limit as int, 0);
    let ghost done: Seq<int> = seq![];
    let per_page = geometry.usable_size / 5;
    let lock = lock_page(geometry);
    let mut entries: Vec<PointerMapEntry> = Vec::new();
    let mut index: u32 = 0;
    while index < per_page
        invariant
            geometry_wf(*geometry),
            image@.len() == geometry.file_length,
            number >= 1,
            per_page == geometry.usable_size / 5,
            lock == spec_lock_page(geometry.page_size as int),
            index <= per_page,
            control_kept(*old(control), *control),
            all == entry_schedule(*geometry, number, limit as int, 0),
            all == done + entry_schedule(*geometry, number, limit as int, index as int),
            entries@.len() == done.len(),
            forall|k: int| 0 <= k < entries@.len() ==> read_entry(#[trigger] entries@[k], image@, *geometry, number, done[k]),
        decreases per_page - index,
    {
        let ghost rest = entry_schedule(*geometry, number, limit as int, index as int);
        if number as u64 + index as u64 + 1 > u32::MAX as u64 {
            assert(rest =~= Seq::<int>::empty());
            assert(all =~= done);
            return (entries, true);
        }
        let target = number + index + 1;
        if target > limit || map_for(geometry, target) != Some(number) {
            assert(rest =~= Seq::<int>::empty());
            assert(all =~= done);
            return (entries, true);
        }
        if target != lock {
            if control.stopped() {
                return (entries, false);
            }
            let locus = evidence(geometry, number, index * 5, 5, ValidationRule::PointerMapEntry);
            let at = locus.range.file_offset;
            if at >= geometry.file_length {
                assert(rest[0] == index as int);
                return (entries, false);
            }
            let available: u64 = if geometry.file_length - at < 5 { geometry.file_length - at } else { 5 };
            let at = at as usize;
            let raw = image[at];
            let parent_value = if available == 5 {
                Some(crate::bytes::dword(image, at + 1))
            } else {
                None
            };
            let parent = match parent_value {
                Some(p) => if p != 0 { Some(EntityIdentity::Page { page_number: p }) } else { None },
                None => None,
            };
            let entry = PointerMapEntry {
                target: EntityIdentity::Page { page_number: target },
                raw_kind: raw,
                kind: map_kind(raw),
                parent_value,
                parent,
                evidence: PhysicalEvidence { range: ByteRange { length: available as u32, ..locus.range }, ..locus },
                state: RelationshipState::Unresolved,
                diagnostics: Vec::new(),
            };
            proof {
                assert(read_entry(entry, image@, *geometry, number, index as int));
                assert(rest =~= seq![index as int] + entry_schedule(*geometry, number, limit as int, index + 1));
                assert(done.push(index as int) + entry_schedule(*geometry, number, limit as int, index + 1) =~= done + rest);
                done = done.push(index as int);
            }
            entries.push(entry);
        }
        index = index + 1;
    }
    assert(entry_schedule(*geometry, number, limit as int, index as int) =~= Seq::<int>::empty());
    assert(all =~= done);
    (entries, true)
}

/// The map pages among pages `1..=n`, in file order.
pub open spec fn map_pages(g: DatabaseGeometry, n: int) -> Seq<u32>
    decreases n,
{
    if n <= 0 {
        seq![]
    } else {
        map_pages(g, n - 1) + if spec_map_for(g, n) == Some(n) { seq![n as u32] } else { seq![] }
    }
}

/// Whether every map page read is complete.
pub open spec fn all_complete(pages: Seq<PointerMapPage>) -> bool {
    forall|k: int| 0 <= k < pages.len() ==> (#[trigger] pages[k]).complete
}

/// Inspects the pointer map over the first `inventoried` pages. A database
/// without a pointer map has only the header facts. A stop ends inspection
/// after a prefix of the map pages.
pub fn inspect(image: &[u8], geometry: &DatabaseGeometry, inventoried: u32, control: &mut WorkControl) -> (r: PointerMapEvidence)
    requires
        geometry_wf(*geometry),
        image@.len() == geometry.file_length,
    ensures
        is_header(r, *geometry),
        control_kept(*old(control), *final(control)),
        !r.applicable ==> r.pages@.len() == 0 && r.locations@.len() == 0 && r.complete,
        r.applicable ==> ({
            let scan = if geometry.page_count <= inventoried { geometry.page_count as int } else { inventoried as int };
            let maps = map_pages(*geometry, scan);
            &&& r.pages@.len() <= maps.len()
            &&& forall|k: int| 0 <= k < r.pages@.len() ==> inspected_page(#[trigger] r.pages@[k], image@, *geometry, maps[k])
            &&& r.locations@.len() == r.pages@.len()
            &&& forall|k: int| 0 <= k < r.locations@.len() ==> #[trigger] r.locations@[k] == r.pages@[k].page
            &&& r.complete ==> r.pages@.len() == maps.len() && inventoried == geometry.page_count && all_complete(r.pages@)
            &&& !final(control).is_stopped() ==> r.pages@.len() == maps.len()
                && r.complete == (inventoried == geometry.page_count && all_complete(r.pages@))
        }),
{
    let mut result = PointerMapEvidence::header(geometry);
    if !result.applicable {
        return result;
    }
    control.begin_phase(TopologyPhase::PointerMapInspection, Some(inventoried as u64));
    let scan: u32 = if geometry.page_count <= inventoried { geometry.page_count } else { inventoried };
    let ghost maps = map_pages(*geometry, scan as int);
    let mut complete = true;
    let mut number: u64 = 1;
    while number <= scan as u64
        invariant
            geometry_wf(*geometry),
            image@.len() == geometry.file_length,
            is_header(result, *geometry),
            result.applicable,
            !result.complete,
            1 <= number <= scan as int + 1,
            scan <= geometry.page_count,
            scan as int == (if geometry.page_count <= inventoried { geometry.page_count as int } else { inventoried as int }),
            maps == map_pages(*geometry, scan as int),
            control_kept(*old(control), *control),
            result.pages@.len() == map_pages(*geometry, number - 1).len(),
            forall|k: int| 0 <= k < result.pages@.len() ==> inspected_page(#[trigger] result.pages@[k], image@, *geometry, maps[k]),
            result.locations@.len() == result.pages@.len(),
            forall|k: int| 0 <= k < result.locations@.len() ==> #[trigger] result.locations@[k] == result.pages@[k].page,
            complete == all_complete(result.pages@),
        decreases scan as int + 1 - number,
    {
        proof {
            lemma_map_pages_prefix(*geometry, number - 1, scan as int);
            lemma_map_pages_prefix(*geometry, number as int, scan as int);
        }
        if control.stopped() {
            return result;
        }
        let ghost before = map_pages(*geometry, number - 1);
        let n = number as u32;
        if map_for(geometry, n) != Some(n) {
            assert(map_pages(*geometry, number as int) =~= before);
            control.advance(TopologyPhase::PointerMapInspection);
        } else {
            let map = inspect_page(image, geometry, n, control);
            let ghost old_pages = result.pages@;
            let ghost page = map;
            complete = complete && map.complete;
            result.locations.push(map.page);
            result.pages.push(map);
            assert(map_pages(*geometry, number as int) =~= before.push(n));
            assert(map_pages(*geometry, number as int)[old_pages.len() as int] == n);
            assert(maps.subrange(0, map_pages(*geometry, number as int).len() as int)[old_pages.len() as int] == maps[old_pages.len() as int]);
            assert(maps[old_pages.len() as int] == n);
            assert(result.pages@ =~= old_pages.push(page));
            assert(all_complete(result.pages@) == (all_complete(old_pages) && page.complete)) by {
                if all_complete(old_pages) && page.complete {
                    assert forall|k: int| 0 <= k < result.pages@.len() implies (#[trigger] result.pages@[k]).complete by {
                        if k < old_pages.len() {
                            assert(result.pages@[k] == old_pages[k]);
                        }
                    }
                }
                if all_complete(result.pages@) {
                    assert(result.pages@[old_pages.len() as int].complete);
                    assert forall|k: int| 0 <= k < old_pages.len() implies (#[trigger] old_pages[k]).complete by {
                        assert(result.pages@[k] == old_pages[k]);
                    }
                }
            }
            control.advance(TopologyPhase::PointerMapInspection);
        }
        number = number + 1;
    }
    let stopped = control.stopped();
    if !stopped {
        control.finish_phase(TopologyPhase::PointerMapInspection);
    }
    result.complete = !stopped && inventoried == geometry.page_count && complete;
    result
}

/// The map pages up to `n` begin the map pages up to any later `m`.
pub proof fn lemma_map_pages_prefix(g: DatabaseGeometry, n: int, m: int)
    requires
        0 <= n <= m,
    ensures
        map_pages(g, n).is_prefix_of(map_pages(g, m)),
    decreases m - n,
{
    if n < m {
        lemma_map_pages_prefix(g, n, m - 1);
        assert(map_pages(g, m - 1).is_prefix_of(map_pages(g, m)));
    }
}

/// The page an entry describes.
pub open spec fn entry_target(e: PointerMapEntry) -> u32 {
    match e.target {
        EntityIdentity::Page { page_number } => page_number,
        EntityIdentity::Cell { page_number, .. } => page_number,
    }
}

/// A parent that an entry of `kind` may name: roots and freelist pages have
/// none; every other page has an ordinary page other than itself.
pub open spec fn parent_valid(g: DatabaseGeometry, kind: PointerMapKind, parent: u32, target: u32) -> bool {
    if kind == PointerMapKind::BtreeRoot || kind == PointerMapKind::Freelist {
        parent == 0
    } else {
        parent > 0 && parent <= g.page_count && parent != target && spec_reserved_role(g, parent) is None
    }
}

/// What validation decides for an entry on its own: its new state and the
/// diagnostic it adds, or `None` when an entry cut short is left as it is.
pub open spec fn validation(g: DatabaseGeometry, e: PointerMapEntry) -> Option<(RelationshipState, Option<PointerMapDiagnostic>)> {
    match e.kind {
        None => Some((RelationshipState::Invalid, Some(PointerMapDiagnostic::InvalidKind))),
        Some(kind) => match e.parent_value {
            None => None,
            Some(parent) => {
                let target = entry_target(e);
                if target > g.page_count {
                    Some((RelationshipState::Unresolved, Some(PointerMapDiagnostic::TargetOutOfRange)))
                } else if parent_valid(g, kind, parent, target) {
                    if kind == PointerMapKind::BtreeRoot && target > g.largest_root_page {
                        Some((RelationshipState::Conflicting, Some(PointerMapDiagnostic::RootAboveLargestRoot)))
                    } else {
                        Some((RelationshipState::Validated, None))
                    }
                } else {
                    Some((RelationshipState::Invalid, Some(PointerMapDiagnostic::InvalidParent)))
                }
            },
        },
    }
}

/// `a` and `b` record the same entry, whatever their state.
pub open spec fn same_facts(a: PointerMapEntry, b: PointerMapEntry) -> bool {
    &&& a.target == b.target
    &&& a.raw_kind == b.raw_kind
    &&& a.kind == b.kind
    &&& a.parent_value == b.parent_value
    &&& a.parent == b.parent
    &&& a.evidence == b.evidence
}

pub open spec fn kept_entry(a: PointerMapEntry, b: PointerMapEntry) -> bool {
    &&& same_facts(a, b)
    &&& a.state == b.state
    &&& a.diagnostics@ == b.diagnostics@
}

/// `b` is `a` after validation.
pub open spec fn validated_entry(g: DatabaseGeometry, a: PointerMapEntry, b: PointerMapEntry) -> bool {
    &&& same_facts(a, b)
    &&& match validation(g, a) {
        None => b.state == a.state && b.diagnostics@ == a.diagnostics@,
        Some((state, note)) => b.state == state && b.diagnostics@ == a.diagnostics@ + match note {
            Some(d) => seq![d],
            None => seq![],
        },
    }
}

/// Validates one entry on its own: its type, its target and its parent.
pub fn validate_entry(geometry: &DatabaseGeometry, entry: &mut PointerMapEntry)
    requires
        geometry.page_size > 0,
        old(entry).target is Page,
    ensures
        validated_entry(*geometry, *old(entry), *final(entry)),
{
    let kind = match entry.kind {
        Some(kind) => kind,
        None => {
            entry.state = RelationshipState::Invalid;
            entry.diagnostics.push(PointerMapDiagnostic::InvalidKind);
            assert(entry.diagnostics@ =~= old(entry).diagnostics@ + seq![PointerMapDiagnostic::InvalidKind]);
            return;
        },
    };
    let parent = match entry.parent_value {
        Some(parent) => parent,
        None => return,
    };
    let target = match entry.target {
        EntityIdentity::Page { page_number } => page_number,
        EntityIdentity::Cell { page_number, .. } => page_number,
    };
    if target > geometry.page_count {
        entry.state = RelationshipState::Unresolved;
        entry.diagnostics.push(PointerMapDiagnostic::TargetOutOfRange);
        assert(entry.diagnostics@ =~= old(entry).diagnostics@ + seq![PointerMapDiagnostic::TargetOutOfRange]);
        return;
    }
    let valid = if kind == PointerMapKind::BtreeRoot || kind == PointerMapKind::Freelist {
        parent == 0
    } else {
        parent > 0 && parent <= geometry.page_count && parent != target && reserved_role(geometry, parent).is_none()
    };
    if valid {
        if kind == PointerMapKind::BtreeRoot && target > geometry.largest_root_page {
            entry.state = RelationshipState::Conflicting;
            entry.diagnostics.push(PointerMapDiagnostic::RootAboveLargestRoot);
            assert(entry.diagnostics@ =~= old(entry).diagnostics@ + seq![PointerMapDiagnostic::RootAboveLargestRoot]);
        } else {
            entry.state = RelationshipState::Validated;
            assert(entry.diagnostics@ =~= old(entry).diagnostics@ + Seq::<PointerMapDiagnostic>::empty());
        }
    } else {
        entry.state = RelationshipState::Invalid;
        entry.diagnostics.push(PointerMapDiagnostic::InvalidParent);
        assert(entry.diagnostics@ =~= old(entry).diagnostics@ + seq![PointerMapDiagnostic::InvalidParent]);
    }
}

/// Validates the entries of one map page in order, counting each; a stop
/// ends validation with the rest left as they were.
fn validate_entries(geometry: &DatabaseGeometry, entries: &mut Vec<PointerMapEntry>, control: &mut WorkControl) -> (r: bool)
    requires
        geometry.page_size > 0,
        forall|j: int| 0 <= j < old(entries)@.len() ==> (#[trigger] old(entries)@[j]).target is Page,
    ensures
        final(entries)@.len() == old(entries)@.len(),
        r ==> forall|j: int| 0 <= j < old(entries)@.len() ==> validated_entry(*geometry, #[trigger] old(entries)@[j], final(entries)@[j]),
        forall|j: int| 0 <= j < old(entries)@.len() ==> validated_entry(*geometry, #[trigger] old(entries)@[j], final(entries)@[j])
            || kept_entry(old(entries)@[j], final(entries)@[j]),
        r == !final(control).is_stopped(),
        control_kept(*old(control), *final(control)),
{
    let mut j: usize = 0;
    while j < entries.len()
        invariant
            geometry.page_size > 0,
            j <= entries@.len(),
            entries@.len() == old(entries)@.len(),
            forall|q: int| 0 <= q < old(entries)@.len() ==> (#[trigger] old(entries)@[q]).target is Page,
            forall|q: int| 0 <= q < j ==> validated_entry(*geometry, #[trigger] old(entries)@[q], entries@[q]),
            forall|q: int| j <= q < entries@.len() ==> kept_entry(#[trigger] old(entries)@[q], entries@[q]),
            control_kept(*old(control), *control),
        decreases entries@.len() - j,
    {
        if control.stopped() {
            return false;
        }
        control.advance(TopologyPhase::PointerMapValidation);
        let ghost before = entries@;
        assert(kept_entry(old(entries)@[j as int], entries@[j as int]));
        validate_entry(geometry, &mut entries[j]);
        assert(forall|q: int| 0 <= q < entries@.len() && q != j ==> entries@[q] == before[q]);
        j = j + 1;
    }
    !control.stopped()
}

/// Page `b` is page `a` with its entries validated, or, unless `all`, some
/// left as they were.
pub open spec fn page_validated(g: DatabaseGeometry, a: PointerMapPage, b: PointerMapPage, all: bool) -> bool {
    &&& b.page == a.page
    &&& b.complete == a.complete
    &&& b.diagnostics@ == a.diagnostics@
    &&& b.entries@.len() == a.entries@.len()
    &&& forall|q: int| 0 <= q < a.entries@.len() ==> validated_entry(g, #[trigger] a.entries@[q], b.entries@[q])
        || (!all && kept_entry(a.entries@[q], b.entries@[q]))
}

pub open spec fn pages_validated(g: DatabaseGeometry, a: Seq<PointerMapPage>, b: Seq<PointerMapPage>, all: bool) -> bool {
    &&& a.len() == b.len()
    &&& forall|p: int| 0 <= p < a.len() ==> page_validated(g, #[trigger] a[p], b[p], all)
}

/// Validates every entry of every map page on its own terms. Returns whether
/// validation finished; a stop leaves later entries as they were.
pub fn validate(geometry: &DatabaseGeometry, maps: &mut PointerMapEvidence, control: &mut WorkControl) -> (r: bool)
    requires
        geometry.page_size > 0,
        forall|p: int, q: int| 0 <= p < old(maps).pages@.len() && 0 <= q < old(maps).pages@[p].entries@.len()
            ==> (#[trigger] old(maps).pages@[p].entries@[q]).target is Page,
    ensures
        final(maps).applicable == old(maps).applicable,
        final(maps).diagnostics@ == old(maps).diagnostics@,
        final(maps).locations@ == old(maps).locations@,
        final(maps).layout == old(maps).layout,
        final(maps).lock_byte_page == old(maps).lock_byte_page,
        final(maps).complete == old(maps).complete,
        final(maps).largest_root == old(maps).largest_root,
        final(maps).incremental_vacuum == old(maps).incremental_vacuum,
        pages_validated(*geometry, old(maps).pages@, final(maps).pages@, r),
        r == !final(control).is_stopped(),
        control_kept(*old(control), *final(control)),
{
    control.begin_phase(TopologyPhase::PointerMapValidation, None);
    let mut i: usize = 0;
    while i < maps.pages.len()
        invariant
            geometry.page_size > 0,
            i <= maps.pages@.len(),
            maps.applicable == old(maps).applicable,
            maps.diagnostics@ == old(maps).diagnostics@,
            maps.locations@ == old(maps).locations@,
            maps.layout == old(maps).layout,
            maps.lock_byte_page == old(maps).lock_byte_page,
            maps.complete == old(maps).complete,
            maps.largest_root == old(maps).largest_root,
            maps.incremental_vacuum == old(maps).incremental_vacuum,
            forall|p: int, q: int| 0 <= p < old(maps).pages@.len() && 0 <= q < old(maps).pages@[p].entries@.len()
                ==> (#[trigger] old(maps).pages@[p].entries@[q]).target is Page,
            maps.pages@.len() == old(maps).pages@.len(),
            forall|p: int| 0 <= p < i ==> page_validated(*geometry, #[trigger] old(maps).pages@[p], maps.pages@[p], true),
            forall|p: int| i <= p < maps.pages@.len() ==> #[trigger] maps.pages@[p] == old(maps).pages@[p],
            control_kept(*old(control), *control),
        decreases maps.pages@.len() - i,
    {
        let ghost before = maps.pages@;
        let mut entries: Vec<PointerMapEntry> = Vec::new();
        std::mem::swap(&mut entries, &mut maps.pages[i].entries);
        assert(entries@ == old(maps).pages@[i as int].entries@);
        let ok = validate_entries(geometry, &mut entries, control);
        let ghost done = entries@;
        std::mem::swap(&mut entries, &mut maps.pages[i].entries);
        assert(maps.pages@[i as int].entries@ == done);
        assert(forall|p: int| 0 <= p < maps.pages@.len() && p != i ==> #[trigger] maps.pages@[p] == before[p]);
        assert(page_validated(*geometry, old(maps).pages@[i as int], maps.pages@[i as int], ok));
        if !ok {
            assert forall|p: int| 0 <= p < old(maps).pages@.len() implies page_validated(*geometry, #[trigger] old(maps).pages@[p], maps.pages@[p], false) by {
                if p < i {
                    assert(page_validated(*geometry, old(maps).pages@[p], maps.pages@[p], true));
                } else if p > i {
                    assert(maps.pages@[p] == old(maps).pages@[p]);
                }
            }
            return false;
        }
        i = i + 1;
    }
    if control.stopped() {
        assert forall|p: int| 0 <= p < old(maps).pages@.len() implies page_validated(*geometry, #[trigger] old(maps).pages@[p], maps.pages@[p], false) by {
            assert(page_validated(*geometry, old(maps).pages@[p], maps.pages@[p], true));
        }
        return false;
    }
    control.finish_phase(TopologyPhase::PointerMapValidation);
    true
}

/// Whether `claim` is the forward link that an entry of `kind` with parent
/// `parent` describes from the other side.
pub open spec fn agrees(kind: PointerMapKind, parent: Option<u32>, claim: RelationshipClaim) -> bool {
    let source = spec_source_page(claim.source);
    match kind {
        PointerMapKind::BtreeRoot => false,
        PointerMapKind::Freelist => claim.kind == RelationshipKind::FreelistTrunk || claim.kind == RelationshipKind::FreelistLeaf,
        PointerMapKind::BtreeChild => claim.kind == RelationshipKind::BtreeChild && Some(source) == parent,
        PointerMapKind::FirstOverflow => claim.kind == RelationshipKind::Overflow && claim.source is Cell && Some(source) == parent,
        PointerMapKind::Overflow => claim.kind == RelationshipKind::Overflow && claim.source is Page && Some(source) == parent,
    }
}

fn agrees_with(kind: PointerMapKind, parent: Option<u32>, claim: &RelationshipClaim) -> (r: bool)
    ensures
        r == agrees(kind, parent, *claim),
{
    let source = crate::topology::source_page(&claim.source);
    match kind {
        PointerMapKind::BtreeRoot => false,
        PointerMapKind::Freelist => claim.kind == RelationshipKind::FreelistTrunk || claim.kind == RelationshipKind::FreelistLeaf,
        PointerMapKind::BtreeChild => claim.kind == RelationshipKind::BtreeChild && Some(source) == parent,
        PointerMapKind::FirstOverflow => claim.kind == RelationshipKind::Overflow && matches!(claim.source, EntityIdentity::Cell { .. }) && Some(source) == parent,
        PointerMapKind::Overflow => claim.kind == RelationshipKind::Overflow && matches!(claim.source, EntityIdentity::Page { .. }) && Some(source) == parent,
    }
}

pub open spec fn credible_state(state: RelationshipState) -> bool {
    state == RelationshipState::Validated || state == RelationshipState::Conflicting
}

pub open spec fn targets(claim: RelationshipClaim, page: u32) -> bool {
    claim.target == Some(PageIdentity { page_number: page })
}

/// A credible claim on `page` that the entry does not describe.
pub open spec fn contradicted(claims: Seq<RelationshipClaim>, page: u32, kind: PointerMapKind, parent: Option<u32>) -> bool {
    exists|i: int| 0 <= i < claims.len() && targets(#[trigger] claims[i], page) && credible_state(claims[i].state) && !agrees(kind, parent, claims[i])
}

/// A validated claim on `page` that the entry describes.
pub open spec fn confirmed(claims: Seq<RelationshipClaim>, page: u32, kind: PointerMapKind, parent: Option<u32>) -> bool {
    exists|i: int| 0 <= i < claims.len() && targets(#[trigger] claims[i], page) && claims[i].state == RelationshipState::Validated && agrees(kind, parent, claims[i])
}

/// `b` is claim `a` marked conflicting for naming `page`.
pub open spec fn marked(a: RelationshipClaim, b: RelationshipClaim, page: u32) -> bool {
    &&& targets(a, page)
    &&& credible_state(a.state)
    &&& b == RelationshipClaim { state: RelationshipState::Conflicting, stop_reason: Some(TraversalStopReason::ConflictingClaim), ..a }
}

/// Every credible claim on `page` is marked conflicting; the rest are kept.
pub open spec fn all_marked(a: Seq<RelationshipClaim>, b: Seq<RelationshipClaim>, page: u32) -> bool {
    &&& a.len() == b.len()
    &&& forall|i: int| 0 <= i < a.len() ==> if targets(#[trigger] a[i], page) && credible_state(a[i].state) {
        marked(a[i], b[i], page)
    } else {
        b[i] == a[i]
    }
}

/// Claims are kept or marked conflicting, never made credible.
pub open spec fn only_marked(a: Seq<RelationshipClaim>, b: Seq<RelationshipClaim>) -> bool {
    &&& a.len() == b.len()
    &&& forall|i: int| 0 <= i < a.len() ==> #[trigger] b[i] == a[i] || (credible_state(a[i].state) && b[i] == RelationshipClaim {
        state: RelationshipState::Conflicting,
        stop_reason: Some(TraversalStopReason::ConflictingClaim),
        ..a[i]
    })
}

/// What reconciling a validated entry decides: `Some(mismatch)` when the
/// entry conflicts (with whether a forward link contradicts it), or `None`.
pub open spec fn entry_conflict(claims: Seq<RelationshipClaim>, e: PointerMapEntry, fully_evaluated: bool) -> Option<bool> {
    let page = entry_target(e);
    let kind = e.kind.unwrap();
    let c = contradicted(claims, page, kind, e.parent_value);
    let f = confirmed(claims, page, kind, e.parent_value);
    let root = kind == PointerMapKind::BtreeRoot;
    if c || (!root && !f && fully_evaluated) {
        Some(c)
    } else {
        None
    }
}

/// Checks a validated entry against the claims on its page. An entry that a
/// credible claim contradicts, or that no validated claim confirms once every
/// claim has been evaluated, conflicts, and so do the credible claims on its
/// page; an unconfirmed entry is otherwise unresolved. Roots need no forward
/// link. Returns false when a stop ends the work.
pub fn reconcile_entry(entry: &mut PointerMapEntry, claims: &mut Vec<RelationshipClaim>, fully_evaluated: bool, control: &mut WorkControl) -> (r: bool)
    ensures
        same_facts(*old(entry), *final(entry)),
        control_kept(*old(control), *final(control)),
        !r ==> final(control).is_stopped(),
        only_marked(old(claims)@, final(claims)@),
        !r ==> (kept_entry(*old(entry), *final(entry)) || final(entry).state == RelationshipState::Conflicting),
        old(entry).state != RelationshipState::Validated || old(entry).kind is None || old(entry).target is Cell ==> kept_entry(*old(entry), *final(entry)) && final(claims)@ == old(claims)@,
        r && old(entry).state == RelationshipState::Validated && old(entry).kind is Some && old(entry).target is Page ==> ({
            let page = entry_target(*old(entry));
            let kind = old(entry).kind.unwrap();
            match entry_conflict(old(claims)@, *old(entry), fully_evaluated) {
                Some(mismatch) => {
                    &&& final(entry).state == RelationshipState::Conflicting
                    &&& final(entry).diagnostics@ == old(entry).diagnostics@ + seq![
                        if mismatch { PointerMapDiagnostic::ParentMismatch } else { PointerMapDiagnostic::MissingForwardLink },
                    ]
                    &&& all_marked(old(claims)@, final(claims)@, page)
                },
                None => {
                    &&& final(entry).state == if kind != PointerMapKind::BtreeRoot && !confirmed(old(claims)@, page, kind, old(entry).parent_value) {
                        RelationshipState::Unresolved
                    } else {
                        RelationshipState::Validated
                    }
                    &&& final(entry).diagnostics@ == old(entry).diagnostics@
                    &&& final(claims)@ == old(claims)@
                },
            }
        }),
{
    if control.stopped() {
        return false;
    }
    control.advance(TopologyPhase::PointerMapReconciliation);
    if entry.state != RelationshipState::Validated {
        return true;
    }
    let page = match entry.target {
        EntityIdentity::Page { page_number } => page_number,
        EntityIdentity::Cell { .. } => return true,
    };
    let kind = match entry.kind {
        Some(kind) => kind,
        None => return true,
    };
    let parent = entry.parent_value;
    let target = Some(PageIdentity { page_number: page });
    let mut contradicted_now = false;
    let mut confirmed_now = false;
    let mut i: usize = 0;
    while i < claims.len()
        invariant
            i <= claims@.len(),
            claims@ == old(claims)@,
            *entry == *old(entry),
            page == entry_target(*old(entry)),
            target == Some(PageIdentity { page_number: page }),
            control_kept(*old(control), *control),
            contradicted_now == contradicted(claims@.subrange(0, i as int), page, kind, parent),
            confirmed_now == confirmed(claims@.subrange(0, i as int), page, kind, parent),
        decreases claims@.len() - i,
    {
        let claim = claims[i];
        let ghost part = claims@.subrange(0, i as int);
        let ghost next = claims@.subrange(0, i + 1);
        assert(next =~= part.push(claim));
        if claim.target == target {
            if control.stopped() {
                return false;
            }
            control.advance(TopologyPhase::PointerMapReconciliation);
            let agreeing = agrees_with(kind, parent, &claim);
            let credible = claim.state == RelationshipState::Validated || claim.state == RelationshipState::Conflicting;
            proof {
                assert(next[i as int] == claim);
                if credible && !agreeing {
                    assert(contradicted(next, page, kind, parent));
                } else {
                    if contradicted(next, page, kind, parent) {
                        let w = choose|w: int| 0 <= w < next.len() && targets(#[trigger] next[w], page) && credible_state(next[w].state) && !agrees(kind, parent, next[w]);
                        assert(w < i);
                        assert(part[w] == next[w]);
                        assert(contradicted(part, page, kind, parent));
                    }
                }
                if claim.state == RelationshipState::Validated && agreeing {
                    assert(confirmed(next, page, kind, parent));
                } else {
                    if confirmed(next, page, kind, parent) {
                        let w = choose|w: int| 0 <= w < next.len() && targets(#[trigger] next[w], page) && next[w].state == RelationshipState::Validated && agrees(kind, parent, next[w]);
                        assert(w < i);
                        assert(part[w] == next[w]);
                        assert(confirmed(part, page, kind, parent));
                    }
                }
                if contradicted(part, page, kind, parent) {
                    let w = choose|w: int| 0 <= w < part.len() && targets(#[trigger] part[w], page) && credible_state(part[w].state) && !agrees(kind, parent, part[w]);
                    assert(next[w] == part[w]);
                }
                if confirmed(part, page, kind, parent) {
                    let w = choose|w: int| 0 <= w < part.len() && targets(#[trigger] part[w], page) && part[w].state == RelationshipState::Validated && agrees(kind, parent, part[w]);
                    assert(next[w] == part[w]);
                }
            }
            contradicted_now = contradicted_now || (credible && !agreeing);
            confirmed_now = confirmed_now || (claim.state == RelationshipState::Validated && agreeing);
        } else {
            proof {
                if contradicted(next, page, kind, parent) {
                    let w = choose|w: int| 0 <= w < next.len() && targets(#[trigger] next[w], page) && credible_state(next[w].state) && !agrees(kind, parent, next[w]);
                    assert(w < i);
                    assert(part[w] == next[w]);
                }
                if confirmed(next, page, kind, parent) {
                    let w = choose|w: int| 0 <= w < next.len() && targets(#[trigger] next[w], page) && next[w].state == RelationshipState::Validated && agrees(kind, parent, next[w]);
                    assert(w < i);
                    assert(part[w] == next[w]);
                }
                if contradicted(part, page, kind, parent) {
                    let w = choose|w: int| 0 <= w < part.len() && targets(#[trigger] part[w], page) && credible_state(part[w].state) && !agrees(kind, parent, part[w]);
                    assert(next[w] == part[w]);
                }
                if confirmed(part, page, kind, parent) {
                    let w = choose|w: int| 0 <= w < part.len() && targets(#[trigger] part[w], page) && part[w].state == RelationshipState::Validated && agrees(kind, parent, part[w]);
                    assert(next[w] == part[w]);
                }
            }
        }
        i = i + 1;
    }
    assert(claims@.subrange(0, claims@.len() as int) =~= claims@);
    let root = kind == PointerMapKind::BtreeRoot;
    if contradicted_now || (!root && !confirmed_now && fully_evaluated) {
        entry.state = RelationshipState::Conflicting;
        let note = if contradicted_now { PointerMapDiagnostic::ParentMismatch } else { PointerMapDiagnostic::MissingForwardLink };
        entry.diagnostics.push(note);
        assert(entry.diagnostics@ =~= old(entry).diagnostics@ + seq![note]);
        let mut j: usize = 0;
        while j < claims.len()
            invariant
                j <= claims@.len(),
                claims@.len() == old(claims)@.len(),
                target == Some(PageIdentity { page_number: page }),
                same_facts(*old(entry), *entry),
                old(entry).state == RelationshipState::Validated,
                old(entry).kind is Some,
                old(entry).target is Page,
                entry.state == RelationshipState::Conflicting,
                entry.diagnostics@ == old(entry).diagnostics@ + seq![note],
                control_kept(*old(control), *control),
                forall|q: int| 0 <= q < j ==> if targets(#[trigger] old(claims)@[q], page) && credible_state(old(claims)@[q].state) {
                    marked(old(claims)@[q], claims@[q], page)
                } else {
                    claims@[q] == old(claims)@[q]
                },
                forall|q: int| j <= q < claims@.len() ==> #[trigger] claims@[q] == old(claims)@[q],
            decreases claims@.len() - j,
        {
            let claim = claims[j];
            if claim.target == target {
                if control.stopped() {
                    return false;
                }
                control.advance(TopologyPhase::PointerMapReconciliation);
                if claim.state == RelationshipState::Validated || claim.state == RelationshipState::Conflicting {
                    claims.set(j, RelationshipClaim {
                        state: RelationshipState::Conflicting,
                        stop_reason: Some(TraversalStopReason::ConflictingClaim),
                        ..claim
                    });
                }
            }
            j = j + 1;
        }
    } else if !root && !confirmed_now {
        entry.state = RelationshipState::Unresolved;
    }
    true
}

/// `f` is entry `e` after reconciliation against `claims`: a validated entry
/// that a credible claim contradicts conflicts, one left validated is a root or
/// has a validated claim that it describes, and any other entry is kept.
pub open spec fn entry_reconciled(e: PointerMapEntry, f: PointerMapEntry, claims: Seq<RelationshipClaim>) -> bool {
    if e.state == RelationshipState::Validated && e.kind is Some && e.target is Page {
        let page = entry_target(e);
        let kind = e.kind.unwrap();
        &&& same_facts(e, f)
        &&& contradicted(claims, page, kind, e.parent_value) ==> f.state == RelationshipState::Conflicting
        &&& f.state == RelationshipState::Validated ==> (kind == PointerMapKind::BtreeRoot || confirmed(claims, page, kind, e.parent_value))
        &&& (f.state == RelationshipState::Validated || f.state == RelationshipState::Unresolved || f.state == RelationshipState::Conflicting)
    } else {
        kept_entry(e, f)
    }
}

/// Marking claims conflicting changes neither which claims contradict an
/// entry nor adds a claim that confirms it.
pub proof fn lemma_marked_claims(a: Seq<RelationshipClaim>, b: Seq<RelationshipClaim>, page: u32, kind: PointerMapKind, parent: Option<u32>)
    requires
        only_marked(a, b),
    ensures
        contradicted(a, page, kind, parent) == contradicted(b, page, kind, parent),
        confirmed(b, page, kind, parent) ==> confirmed(a, page, kind, parent),
{
    if contradicted(a, page, kind, parent) {
        let i = choose|i: int| 0 <= i < a.len() && targets(#[trigger] a[i], page) && credible_state(a[i].state) && !agrees(kind, parent, a[i]);
        assert(targets(b[i], page));
    }
    if contradicted(b, page, kind, parent) {
        let i = choose|i: int| 0 <= i < b.len() && targets(#[trigger] b[i], page) && credible_state(b[i].state) && !agrees(kind, parent, b[i]);
        assert(targets(a[i], page));
    }
    if confirmed(b, page, kind, parent) {
        let i = choose|i: int| 0 <= i < b.len() && targets(#[trigger] b[i], page) && b[i].state == RelationshipState::Validated && agrees(kind, parent, b[i]);
        assert(targets(a[i], page));
    }
}

/// Checks every validated entry against the claims of `topology`. Returns
/// false when a stop ends the work.
pub fn reconcile(maps: &mut PointerMapEvidence, topology: &mut Topology, inventory_complete: bool, control: &mut WorkControl) -> (r: bool)
    ensures
        final(maps).applicable == old(maps).applicable,
        final(maps).diagnostics@ == old(maps).diagnostics@,
        final(maps).locations@ == old(maps).locations@,
        final(maps).layout == old(maps).layout,
        final(maps).lock_byte_page == old(maps).lock_byte_page,
        final(maps).complete == old(maps).complete,
        final(maps).largest_root == old(maps).largest_root,
        final(maps).incremental_vacuum == old(maps).incremental_vacuum,
        final(maps).pages@.len() == old(maps).pages@.len(),
        forall|p: int| 0 <= p < old(maps).pages@.len() ==> {
            &&& (#[trigger] final(maps).pages@[p]).page == old(maps).pages@[p].page
            &&& final(maps).pages@[p].complete == old(maps).pages@[p].complete
            &&& final(maps).pages@[p].diagnostics@ == old(maps).pages@[p].diagnostics@
            &&& final(maps).pages@[p].entries@.len() == old(maps).pages@[p].entries@.len()
            &&& forall|q: int| 0 <= q < old(maps).pages@[p].entries@.len() ==> same_facts(#[trigger] old(maps).pages@[p].entries@[q], final(maps).pages@[p].entries@[q])
        },
        only_marked(old(topology).claims@, final(topology).claims@),
        final(topology).freelist == old(topology).freelist,
        final(topology).relationships@ == old(topology).relationships@,
        final(topology).traversals@ == old(topology).traversals@,
        final(topology).diagnostics@ == old(topology).diagnostics@,
        final(topology).coverage == old(topology).coverage,
        final(topology).classifications@ == old(topology).classifications@,
        final(topology).pointer_map == old(topology).pointer_map,
        r ==> !final(control).is_stopped(),
        !r ==> final(control).is_stopped(),
        control_kept(*old(control), *final(control)),
        r ==> forall|p: int, q: int| 0 <= p < old(maps).pages@.len() && 0 <= q < old(maps).pages@[p].entries@.len()
            ==> entry_reconciled(old(maps).pages@[p].entries@[q], #[trigger] final(maps).pages@[p].entries@[q], old(topology).claims@),
{
    control.begin_phase(TopologyPhase::PointerMapReconciliation, None);
    let fully_evaluated = inventory_complete && topology.coverage.reason == TopologyCoverageReason::Complete
        && topology.freelist.coverage.reason == FreelistCoverageReason::Complete;
    let mut i: usize = 0;
    while i < maps.pages.len()
        invariant
            i <= maps.pages@.len(),
            maps.applicable == old(maps).applicable,
            maps.diagnostics@ == old(maps).diagnostics@,
            maps.locations@ == old(maps).locations@,
            maps.layout == old(maps).layout,
            maps.lock_byte_page == old(maps).lock_byte_page,
            maps.complete == old(maps).complete,
            maps.largest_root == old(maps).largest_root,
            maps.incremental_vacuum == old(maps).incremental_vacuum,
            maps.pages@.len() == old(maps).pages@.len(),
            forall|p: int| 0 <= p < old(maps).pages@.len() ==> {
                &&& (#[trigger] maps.pages@[p]).page == old(maps).pages@[p].page
                &&& maps.pages@[p].complete == old(maps).pages@[p].complete
                &&& maps.pages@[p].diagnostics@ == old(maps).pages@[p].diagnostics@
                &&& maps.pages@[p].entries@.len() == old(maps).pages@[p].entries@.len()
                &&& forall|q: int| 0 <= q < old(maps).pages@[p].entries@.len() ==> same_facts(#[trigger] old(maps).pages@[p].entries@[q], maps.pages@[p].entries@[q])
            },
            only_marked(old(topology).claims@, topology.claims@),
            topology.freelist == old(topology).freelist,
            topology.relationships@ == old(topology).relationships@,
            topology.traversals@ == old(topology).traversals@,
            topology.diagnostics@ == old(topology).diagnostics@,
            topology.coverage == old(topology).coverage,
            topology.classifications@ == old(topology).classifications@,
            topology.pointer_map == old(topology).pointer_map,
            control_kept(*old(control), *control),
            forall|p: int| i <= p < old(maps).pages@.len() ==> #[trigger] maps.pages@[p] == old(maps).pages@[p],
            forall|p: int, q: int| 0 <= p < i && 0 <= q < old(maps).pages@[p].entries@.len()
                ==> entry_reconciled(old(maps).pages@[p].entries@[q], #[trigger] maps.pages@[p].entries@[q], old(topology).claims@),
        decreases maps.pages@.len() - i,
    {
        let ghost before = maps.pages@;
        let mut entries: Vec<PointerMapEntry> = Vec::new();
        std::mem::swap(&mut entries, &mut maps.pages[i].entries);
        let ghost taken = entries@;
        let mut j: usize = 0;
        let mut ok = true;
        while j < entries.len()
            invariant_except_break
                j < taken.len() ==> entries@[j as int] == taken[j as int],
            invariant
                j <= entries@.len(),
                entries@.len() == taken.len(),
                forall|q: int| 0 <= q < taken.len() ==> same_facts(#[trigger] taken[q], entries@[q]),
                only_marked(old(topology).claims@, topology.claims@),
                topology.freelist == old(topology).freelist,
                topology.relationships@ == old(topology).relationships@,
                topology.traversals@ == old(topology).traversals@,
                topology.diagnostics@ == old(topology).diagnostics@,
                topology.coverage == old(topology).coverage,
                topology.classifications@ == old(topology).classifications@,
                topology.pointer_map == old(topology).pointer_map,
                control_kept(*old(control), *control),
                !ok ==> control.is_stopped(),
                forall|q: int| 0 <= q < j ==> entry_reconciled(taken[q], #[trigger] entries@[q], old(topology).claims@),
                forall|q: int| j < q < taken.len() ==> #[trigger] entries@[q] == taken[q],
            ensures
                ok ==> j == taken.len(),
            decreases entries@.len() - j,
        {
            let ghost claims_before = topology.claims@;
            let ghost entries_before = entries@;
            let done = reconcile_entry(&mut entries[j], &mut topology.claims, fully_evaluated, control);
            proof {
                if done {
                    let e = taken[j as int];
                    if e.state == RelationshipState::Validated && e.kind is Some && e.target is Page {
                        lemma_marked_claims(old(topology).claims@, claims_before, entry_target(e), e.kind.unwrap(), e.parent_value);
                    }
                    assert(entry_reconciled(taken[j as int], entries@[j as int], old(topology).claims@));
                }
                assert forall|q: int| 0 <= q < entries@.len() && q != j implies entries@[q] == entries_before[q] by {}
                assert forall|k: int| 0 <= k < old(topology).claims@.len() implies #[trigger] topology.claims@[k] == old(topology).claims@[k]
                    || (credible_state(old(topology).claims@[k].state) && topology.claims@[k] == RelationshipClaim {
                        state: RelationshipState::Conflicting,
                        stop_reason: Some(TraversalStopReason::ConflictingClaim),
                        ..old(topology).claims@[k]
                    }) by {
                    assert(only_marked(claims_before, topology.claims@));
                    assert(topology.claims@[k] == claims_before[k] || (credible_state(claims_before[k].state) && topology.claims@[k] == RelationshipClaim {
                        state: RelationshipState::Conflicting,
                        stop_reason: Some(TraversalStopReason::ConflictingClaim),
                        ..claims_before[k]
                    }));
                }
            }
            if !done {
                ok = false;
                break;
            }
            j = j + 1;
        }
        let ghost entries_done = entries@;
        std::mem::swap(&mut entries, &mut maps.pages[i].entries);
        assert(forall|p: int| 0 <= p < maps.pages@.len() && p != i ==> #[trigger] maps.pages@[p] == before[p]);
        if !ok {
            return false;
        }
        proof {
            assert(taken == old(maps).pages@[i as int].entries@);
            assert forall|p: int, q: int| 0 <= p < i + 1 && 0 <= q < old(maps).pages@[p].entries@.len()
                implies entry_reconciled(old(maps).pages@[p].entries@[q], #[trigger] maps.pages@[p].entries@[q], old(topology).claims@) by {
                if p < i {
                    assert(entry_reconciled(old(maps).pages@[p].entries@[q], before[p].entries@[q], old(topology).claims@));
                    assert(maps.pages@[p] == before[p]);
                } else {
                    assert(maps.pages@[p].entries@ == entries_done);
                }
            }
        }
        i = i + 1;
    }
    if control.stopped() {
        return false;
    }
    control.finish_phase(TopologyPhase::PointerMapReconciliation);
    true
}

/// A copy of `evidence`.
pub fn copy_evidence(evidence: &Vec<PhysicalEvidence>) -> (r: Vec<PhysicalEvidence>)
    ensures
        r@ == evidence@,
{
    let mut r: Vec<PhysicalEvidence> = Vec::new();
    let mut k: usize = 0;
    while k < evidence.len()
        invariant
            k <= evidence@.len(),
            r@ == evidence@.subrange(0, k as int),
        decreases evidence@.len() - k,
    {
        r.push(evidence[k]);
        assert(r@ =~= evidence@.subrange(0, k + 1));
        k = k + 1;
    }
    assert(evidence@.subrange(0, k as int) =~= evidence@);
    r
}

} // verus!
