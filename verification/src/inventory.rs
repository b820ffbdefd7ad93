//! The page inventory: one structural entity per page of the main-file image.
use vstd::prelude::*;
use vstd::slice::slice_subrange;

use crate::btree::{spec_range, spec_read_failure, LocalCoverage, Page, PageDetail, PageSpec, PageView, Region, RegionKind};
use crate::geometry::{geometry_wf, DatabaseGeometry};
use crate::roles::{initial, reserved_role, spec_initial, spec_reserved_role, PageClassification, PageRole};
use crate::signal::StopSignal;

verus! {

/// One page of the inventory: its number, role evidence, and local structure.
#[derive(Clone, Debug, PartialEq, Eq)]
pub struct PageEntity {
    pub number: u32,
    pub classification: PageClassification,
    pub detail: PageDetail,
}

/// Why the page inventory stopped where it did.
#[derive(Clone, Copy, Debug, PartialEq, Eq, Structural)]
pub enum CoverageReason {
    Complete,
    Cancelled,
    OperatorStop,
    InputChanged,
    FatalGeometry,
    AllocationFailure,
    CellBudget,
    ResidentMemoryBudget,
    StorageBudget,
    StorageFailure,
}

/// How much of the page inventory was evaluated.
#[derive(Clone, Copy, Debug, PartialEq, Eq, Structural)]
pub struct Coverage {
    pub evaluated: u32,
    pub total: Option<u32>,
    pub next_page: Option<u32>,
    pub reason: CoverageReason,
    pub remainder: Option<u32>,
}

/// Bytes of page `number` that lie within a file of `file_length` bytes.
pub open spec fn present_bytes(geometry: DatabaseGeometry, number: int) -> int {
    let start = (number - 1) * geometry.page_size;
    if geometry.file_length <= start {
        0
    } else if geometry.file_length - start >= geometry.page_size {
        geometry.page_size as int
    } else {
        geometry.file_length - start
    }
}

/// The detail of a page reserved by geometry (lock-byte or pointer-map page):
/// one opaque region over its present bytes, partial when the file ends inside it.
pub open spec fn spec_reserved_detail(geometry: DatabaseGeometry, number: u32) -> Option<PageView> {
    match spec_reserved_role(geometry, number) {
        None => None,
        Some(role) => Some(PageView {
            kind: None,
            allocation_role: None,
            header: None,
            regions: seq![Region {
                kind: if role == PageRole::LockByte { RegionKind::LockByte } else { RegionKind::PointerMap },
                range: spec_range(number, geometry.page_size, 0, present_bytes(geometry, number as int)),
            }],
            cells: seq![],
            freeblocks: seq![],
            diagnostics: seq![],
            coverage: if geometry.file_length < number * geometry.page_size {
                LocalCoverage::Partial
            } else {
                LocalCoverage::Complete
            },
        }),
    }
}

pub fn reserved_detail(geometry: &DatabaseGeometry, number: u32) -> (r: Option<PageDetail>)
    requires
        geometry_wf(*geometry),
        number >= 1,
    ensures
        match spec_reserved_detail(*geometry, number) {
            Some(v) => r matches Some(d) && d@ == v,
            None => r is None,
        },
{
    let role = match reserved_role(geometry, number) {
        Some(role) => role,
        None => return None,
    };
    let size = geometry.page_size as u64;
    proof {
        assert((number - 1) * geometry.page_size <= 0xffff_ffffu64 * 65536) by (nonlinear_arith)
            requires number >= 1, number <= 0xffff_ffff, geometry.page_size <= 65536;
        assert(number * geometry.page_size <= 0x1_0000_0000u64 * 65536) by (nonlinear_arith)
            requires number <= 0xffff_ffff, geometry.page_size <= 65536;
    }
    let start = (number - 1) as u64 * size;
    let present: u64 = if geometry.file_length <= start {
        0
    } else if geometry.file_length - start >= size {
        size
    } else {
        geometry.file_length - start
    };
    let kind = match role {
        PageRole::LockByte => RegionKind::LockByte,
        _ => RegionKind::PointerMap,
    };
    let mut regions = Vec::new();
    regions.push(Region {
        kind,
        range: crate::btree::ByteRange { page_offset: 0, file_offset: start, length: present as u32 },
    });
    let coverage = if geometry.file_length < number as u64 * size { LocalCoverage::Partial } else { LocalCoverage::Complete };
    let detail = PageDetail {
        kind: None,
        allocation_role: None,
        header: None,
        regions,
        cells: Vec::new(),
        freeblocks: Vec::new(),
        diagnostics: Vec::new(),
        coverage,
    };
    proof {
        let v = spec_reserved_detail(*geometry, number).unwrap();
        assert(detail@.regions =~= v.regions);
        assert(detail@.cells =~= v.cells);
        assert(detail@.freeblocks =~= v.freeblocks);
        assert(detail@.diagnostics =~= v.diagnostics);
    }
    Some(detail)
}

/// Whether the image holds every byte of page `number`.
pub open spec fn page_present(image: Seq<u8>, geometry: DatabaseGeometry, number: u32) -> bool {
    number >= 1 && (number as int) * geometry.page_size <= image.len()
}

/// Page `number` of the image, as the local B-tree reader sees it.
pub open spec fn spec_page_spec(image: Seq<u8>, geometry: DatabaseGeometry, number: u32) -> PageSpec {
    let start = (number - 1) * geometry.page_size;
    PageSpec {
        bytes: image.subrange(start, start + geometry.page_size),
        number,
        size: geometry.page_size,
        usable: geometry.usable_size as usize,
    }
}

/// The local structure of page `number`, or a read failure when the image
/// ends before the page does.
pub open spec fn spec_read_page(image: Seq<u8>, geometry: DatabaseGeometry, number: u32) -> PageView {
    if page_present(image, geometry, number) {
        spec_page_spec(image, geometry, number).spec_inspect()
    } else {
        spec_read_failure()
    }
}

/// Reads and interprets page `number` of the image.
pub fn read_page(image: &[u8], number: u32, geometry: &DatabaseGeometry) -> (r: PageDetail)
    requires
        geometry_wf(*geometry),
        number >= 1,
    ensures
        r@ == spec_read_page(image@, *geometry, number),
{
    let size = geometry.page_size as u64;
    proof {
        assert(number * geometry.page_size <= 0x1_0000_0000u64 * 65536) by (nonlinear_arith)
            requires number <= 0xffff_ffff, geometry.page_size <= 65536;
        assert((number - 1) * geometry.page_size + geometry.page_size == number * geometry.page_size) by (nonlinear_arith);
    }
    let start = (number - 1) as u64 * size;
    if start + size > image.len() as u64 {
        return PageDetail::read_failure();
    }
    let bytes = slice_subrange(image, start as usize, (start + size) as usize);
    let page = Page { bytes, number, size: geometry.page_size, usable: geometry.usable_size as usize };
    assert(page@ == spec_page_spec(image@, *geometry, number));
    page.inspect()
}

/// The structural detail recorded for page `number`: geometry-reserved pages
/// are opaque regions, every other page is read as a B-tree page.
pub open spec fn spec_page_detail(image: Seq<u8>, geometry: DatabaseGeometry, number: u32) -> PageView {
    match spec_reserved_detail(geometry, number) {
        Some(v) => v,
        None => spec_read_page(image, geometry, number),
    }
}

/// Whether `entity` is the inventory entry of page `number`.
pub open spec fn is_page_entity(entity: PageEntity, image: Seq<u8>, geometry: DatabaseGeometry, number: u32) -> bool {
    let detail = spec_page_detail(image, geometry, number);
    &&& entity.number == number
    &&& entity.detail@ == detail
    &&& (entity.classification.role, entity.classification.claims@) == spec_initial(geometry, number, detail)
    &&& !entity.classification.referenced
    &&& !entity.classification.reconciled
}

/// The inventory entry of page `number`.
pub fn page_entity(image: &[u8], geometry: &DatabaseGeometry, number: u32) -> (r: PageEntity)
    requires
        geometry_wf(*geometry),
        number >= 1,
    ensures
        is_page_entity(r, image@, *geometry, number),
{
    let detail = match reserved_detail(geometry, number) {
        Some(detail) => detail,
        None => read_page(image, number, geometry),
    };
    let classification = initial(geometry, number, &detail);
    PageEntity { number, classification, detail }
}

/// The number of cells recorded over a run of inventory entries.
pub open spec fn cell_total(pages: Seq<PageEntity>) -> int
    decreases pages.len(),
{
    if pages.len() == 0 {
        0
    } else {
        cell_total(pages.drop_last()) + pages.last().detail@.cells.len()
    }
}

/// The inventory coverage after `evaluated` of `total` pages.
pub open spec fn spec_inventory_coverage(evaluated: u32, total: Option<u32>, reason: CoverageReason) -> Coverage {
    Coverage {
        evaluated,
        total,
        next_page: match total {
            Some(t) => if evaluated < t { Some((evaluated + 1) as u32) } else { None },
            None => None,
        },
        reason,
        remainder: match total {
            Some(t) => Some((t - evaluated) as u32),
            None => None,
        },
    }
}

pub fn inventory_coverage(evaluated: u32, total: Option<u32>, reason: CoverageReason) -> (r: Coverage)
    requires
        total matches Some(t) ==> evaluated <= t,
    ensures
        r == spec_inventory_coverage(evaluated, total, reason),
{
    let next_page = match total {
        Some(t) => if evaluated < t { Some(evaluated + 1) } else { None },
        None => None,
    };
    let remainder = match total {
        Some(t) => Some(t - evaluated),
        None => None,
    };
    Coverage { evaluated, total, next_page, reason, remainder }
}

/// Builds the page inventory in page order. A page is accepted in full or
/// left unevaluated: the scan stops before a page whose cells would take the
/// aggregate past `max_processed_cells`, or when a stop is requested.
pub fn scan_pages(image: &[u8], geometry: &DatabaseGeometry, max_processed_cells: u64, signal: &StopSignal) -> (r: (
    Vec<PageEntity>,
    Coverage,
))
    requires
        geometry_wf(*geometry),
    ensures
        r.0.len() <= geometry.page_count,
        forall|i: int| 0 <= i < r.0.len() ==> #[trigger] is_page_entity(r.0@[i], image@, *geometry, (i + 1) as u32),
        cell_total(r.0@) <= max_processed_cells,
        r.1 == spec_inventory_coverage(r.0.len() as u32, Some(geometry.page_count), r.1.reason),
        r.1.reason == CoverageReason::Complete || r.1.reason == CoverageReason::CellBudget
            || r.1.reason == CoverageReason::Cancelled || r.1.reason == CoverageReason::OperatorStop,
        r.1.reason == CoverageReason::Complete <==> r.0.len() == geometry.page_count,
        r.1.reason == CoverageReason::CellBudget ==> cell_total(r.0@) + spec_page_detail(
            image@,
            *geometry,
            (r.0.len() + 1) as u32,
        ).cells.len() > max_processed_cells,
{
    let mut pages: Vec<PageEntity> = Vec::new();
    let mut cells: u64 = 0;
    let mut number: u32 = 1;
    let total = geometry.page_count;
    while number <= total
        invariant
            geometry_wf(*geometry),
            total == geometry.page_count,
            1 <= number <= total as int + 1,
            pages.len() == number - 1,
            cells == cell_total(pages@),
            cells <= max_processed_cells,
            forall|i: int| 0 <= i < pages.len() ==> #[trigger] is_page_entity(pages@[i], image@, *geometry, (i + 1) as u32),
        decreases total - number + 1,
    {
        let observed = signal.observe();
        if observed == 1 || observed == 2 {
            let reason = if observed == 1 { CoverageReason::Cancelled } else { CoverageReason::OperatorStop };
            let coverage = inventory_coverage(number - 1, Some(total), reason);
            return (pages, coverage);
        }
        let entity = page_entity(image, geometry, number);
        let count = entity.detail.cells.len() as u64;
        if count > max_processed_cells - cells {
            let coverage = inventory_coverage(number - 1, Some(total), CoverageReason::CellBudget);
            return (pages, coverage);
        }
        let ghost before = pages@;
        pages.push(entity);
        assert(pages@.drop_last() =~= before);
        cells = cells + count;
        if number == total {
            let coverage = inventory_coverage(number, Some(total), CoverageReason::Complete);
            return (pages, coverage);
        }
        number = number + 1;
    }
    let coverage = inventory_coverage(total, Some(total), CoverageReason::Complete);
    (pages, coverage)
}

} // verus!
