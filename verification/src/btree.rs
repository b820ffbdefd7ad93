//! Local B-tree page structure: header, cell pointers, cells, records,
//! freeblocks and fragments of one page, read from that page's bytes alone.
use vstd::prelude::*;
use vstd::slice::slice_subrange;

use crate::bytes::{be16, be32, dword, varint, varint_at, word};
use crate::geometry::valid_page_size;

verus! {

/// Half-open byte extent, expressed in page-relative and main-file coordinates.
#[derive(Clone, Copy, Debug, PartialEq, Eq, Structural)]
pub struct ByteRange {
    pub page_offset: u32,
    pub file_offset: u64,
    pub length: u32,
}

/// What a region of a page holds.
#[derive(Clone, Copy, Debug, PartialEq, Eq, Structural)]
pub enum RegionKind {
    DatabaseHeader,
    UsableSpace,
    OpaqueReserved,
    BtreeHeader,
    CellPointerArray,
    Unallocated,
    CellContent,
    Fragment,
    LockByte,
    PointerMap,
    FreelistHeader,
    FreelistLeafPointers,
    FreelistUnused,
}

#[derive(Clone, Copy, Debug, PartialEq, Eq, Structural)]
pub struct Region {
    pub kind: RegionKind,
    pub range: ByteRange,
}

/// The four B-tree page types, from the page-type byte 13, 5, 10 or 2.
#[derive(Clone, Copy, Debug, PartialEq, Eq, Structural)]
pub enum Kind {
    TableLeaf,
    TableInterior,
    IndexLeaf,
    IndexInterior,
}

#[derive(Clone, Copy, Debug, PartialEq, Eq, Structural)]
pub struct BtreeHeader {
    pub range: ByteRange,
    pub first_freeblock: u32,
    pub cell_count: u16,
    pub content_start: u32,
    pub fragmented_bytes: u8,
    pub rightmost_child: Option<u32>,
}

#[derive(Clone, Copy, Debug, PartialEq, Eq, Structural)]
pub struct CellIdentity {
    pub page_number: u32,
    /// Zero-based physical cell-pointer-array index, not a decoded key.
    pub index: u16,
}

/// How much of a record header the local payload establishes.
#[derive(Clone, Copy, Debug, PartialEq, Eq, Structural)]
pub enum RecordState {
    Invalid,
    NeedsOverflow,
    Complete,
}

#[derive(Clone, Debug, PartialEq, Eq)]
pub struct RecordDetail {
    pub state: RecordState,
    pub header_size: Option<u64>,
    pub serial_types: Vec<u64>,
}

/// Why a cell carries no (or no trustworthy) interpretation.
#[derive(Clone, Copy, Debug, PartialEq, Eq, Structural)]
pub enum CellDiagnostic {
    InvalidCellPointer,
    InvalidCellExtent,
    TruncatedVarint,
    InvalidPayloadSize,
    InvalidRecord,
    OverlappingAllocation,
}

#[derive(Clone, Debug, PartialEq, Eq)]
pub struct CellDetail {
    pub identity: CellIdentity,
    pub pointer: ByteRange,
    pub offset: u32,
    pub range: Option<ByteRange>,
    pub rowid: Option<i64>,
    pub left_child: Option<u32>,
    pub left_child_pointer: Option<ByteRange>,
    pub payload_size: Option<u64>,
    pub local_payload: Option<ByteRange>,
    pub overflow_page: Option<u32>,
    pub overflow_pointer: Option<ByteRange>,
    pub record: Option<RecordDetail>,
    pub diagnostic: Option<CellDiagnostic>,
}

#[derive(Clone, Copy, Debug, PartialEq, Eq, Structural)]
pub struct Freeblock {
    pub offset: u32,
    pub next: u32,
    pub range: Option<ByteRange>,
    pub overlapping: bool,
}

/// Page-level findings that stop dependent interpretation.
#[derive(Clone, Copy, Debug, PartialEq, Eq, Structural)]
pub enum PageDiagnostic {
    InvalidBtreeHeader,
    InvalidFreeblockExtent,
    InvalidFreeblockLink,
    UntrackedFreeSpace,
    FragmentCountMismatch,
    PageReadFailed,
}

/// How much of a page's local structure was interpreted.
#[derive(Clone, Copy, Debug, PartialEq, Eq, Structural)]
pub enum LocalCoverage {
    Unsupported,
    Partial,
    Complete,
}

/// Freelist roles assigned to a page by allocation inspection.
#[derive(Clone, Copy, Debug, PartialEq, Eq, Structural)]
pub enum AllocationRole {
    FreelistTrunk,
    FreelistLeaf,
    Conflicting,
}

#[derive(Clone, Debug, PartialEq, Eq)]
pub struct PageDetail {
    /// A locally validated B-tree header claim; global role reconciliation is separate.
    pub kind: Option<Kind>,
    pub allocation_role: Option<AllocationRole>,
    pub header: Option<BtreeHeader>,
    pub regions: Vec<Region>,
    pub cells: Vec<CellDetail>,
    pub freeblocks: Vec<Freeblock>,
    pub diagnostics: Vec<PageDiagnostic>,
    pub coverage: LocalCoverage,
}

/// Spec-level record facts.
pub struct RecordView {
    pub state: RecordState,
    pub header_size: Option<u64>,
    pub serial_types: Seq<u64>,
}

impl View for RecordDetail {
    type V = RecordView;

    open spec fn view(&self) -> RecordView {
        RecordView { state: self.state, header_size: self.header_size, serial_types: self.serial_types@ }
    }
}

/// Spec-level cell facts.
pub struct CellView {
    pub identity: CellIdentity,
    pub pointer: ByteRange,
    pub offset: u32,
    pub range: Option<ByteRange>,
    pub rowid: Option<i64>,
    pub left_child: Option<u32>,
    pub left_child_pointer: Option<ByteRange>,
    pub payload_size: Option<u64>,
    pub local_payload: Option<ByteRange>,
    pub overflow_page: Option<u32>,
    pub overflow_pointer: Option<ByteRange>,
    pub record: Option<RecordView>,
    pub diagnostic: Option<CellDiagnostic>,
}

impl View for CellDetail {
    type V = CellView;

    open spec fn view(&self) -> CellView {
        CellView {
            identity: self.identity,
            pointer: self.pointer,
            offset: self.offset,
            range: self.range,
            rowid: self.rowid,
            left_child: self.left_child,
            left_child_pointer: self.left_child_pointer,
            payload_size: self.payload_size,
            local_payload: self.local_payload,
            overflow_page: self.overflow_page,
            overflow_pointer: self.overflow_pointer,
            record: match self.record {
                Some(r) => Some(r@),
                None => None,
            },
            diagnostic: self.diagnostic,
        }
    }
}

/// SQLite's page-type bytes: 13 a table leaf, 5 a table interior, 10 an
/// index leaf, 2 an index interior; no other byte names a B-tree page. The
/// interior kinds are exactly those of bytes 5 and 2.
pub proof fn law_page_type_bytes(byte: u8)
    ensures
        Kind::from_byte(13) == Some(Kind::TableLeaf),
        Kind::from_byte(5) == Some(Kind::TableInterior),
        Kind::from_byte(10) == Some(Kind::IndexLeaf),
        Kind::from_byte(2) == Some(Kind::IndexInterior),
        !(byte == 13 || byte == 5 || byte == 10 || byte == 2) ==> Kind::from_byte(byte) is None,
        Kind::from_byte(byte) matches Some(k) ==> (k.is_interior() <==> (byte == 5 || byte == 2)),
{
}

impl Kind {
    /// The page kind named by a page-type byte.
    pub open spec fn from_byte(byte: u8) -> Option<Kind> {
        if byte == 13 {
            Some(Kind::TableLeaf)
        } else if byte == 5 {
            Some(Kind::TableInterior)
        } else if byte == 10 {
            Some(Kind::IndexLeaf)
        } else if byte == 2 {
            Some(Kind::IndexInterior)
        } else {
            None
        }
    }

    pub open spec fn is_interior(self) -> bool {
        self is TableInterior || self is IndexInterior
    }

    /// Whether this is an interior page, whose cells carry a left-child pointer.
    pub fn interior(self) -> (r: bool)
        ensures
            r == self.is_interior(),
    {
        match self {
            Kind::TableInterior | Kind::IndexInterior => true,
            _ => false,
        }
    }
}

/// The extent `[start, start + length)` of page `number` in a file of `size`-byte pages.
pub open spec fn spec_range(number: u32, size: u32, start: int, length: int) -> ByteRange {
    ByteRange {
        page_offset: start as u32,
        file_offset: ((number - 1) * size + start) as u64,
        length: length as u32,
    }
}

/// Payload bytes in the body of a record value with this serial type;
/// `None` for the reserved serial types 10 and 11.
pub open spec fn serial_size(serial: u64) -> Option<u64> {
    if serial == 0 || serial == 8 || serial == 9 {
        Some(0)
    } else if 1 <= serial <= 4 {
        Some(serial)
    } else if serial == 5 {
        Some(6)
    } else if serial == 6 || serial == 7 {
        Some(8)
    } else if serial == 10 || serial == 11 {
        None
    } else {
        Some(((serial - 12) / 2) as u64)
    }
}

/// SQLite's record serial types: NULL and the constants 0 and 1 (types 0, 8,
/// 9) take no bytes; integer types 1 to 6 take 1, 2, 3, 4, 6 and 8 bytes; a
/// real (type 7) takes 8; types 10 and 11 are reserved; an even type 12 + 2n
/// is a blob and an odd type 13 + 2n a text of n bytes.
pub proof fn law_serial_type_sizes(n: u64)
    requires
        n <= (u64::MAX - 13) / 2,
    ensures
        serial_size(0) == Some(0u64),
        serial_size(1) == Some(1u64),
        serial_size(2) == Some(2u64),
        serial_size(3) == Some(3u64),
        serial_size(4) == Some(4u64),
        serial_size(5) == Some(6u64),
        serial_size(6) == Some(8u64),
        serial_size(7) == Some(8u64),
        serial_size(8) == Some(0u64),
        serial_size(9) == Some(0u64),
        serial_size(10) is None,
        serial_size(11) is None,
        serial_size((12 + 2 * n) as u64) == Some(n),
        serial_size((13 + 2 * n) as u64) == Some(n),
{
}

/// A varint never ends before it starts nor past the end of its bytes.
pub proof fn lemma_varint_bounds(s: Seq<u8>, start: int)
    ensures
        varint_at(s, start) matches Some((v, next)) ==> start < next <= s.len(),
{
    lemma_varint_from_bounds(s, start, 0, 0);
}

proof fn lemma_varint_from_bounds(s: Seq<u8>, start: int, index: nat, acc: u64)
    ensures
        crate::bytes::varint_from(s, start, index, acc) matches Some((v, next)) ==> start + index < next <= s.len(),
    decreases 9 - index,
{
    if index < 9 && start >= 0 && start + index < s.len() && index != 8 {
        let byte = s[start + index];
        let value = (acc << 7u64) | ((byte & 0x7f) as u64);
        if byte & 0x80 != 0 {
            lemma_varint_from_bounds(s, start, index + 1, value);
        }
    }
}

/// The serial-type walk of a record header: `bytes` is the local payload
/// (limited to the declared header at `available`), `end` the declared header
/// end, `body` the body bytes that the serial types read so far describe.
pub open spec fn record_walk(
    bytes: Seq<u8>,
    cursor: int,
    available: int,
    end: int,
    header: u64,
    body: u64,
    payload: u64,
    serials: Seq<u64>,
) -> (RecordState, Seq<u64>)
    decreases available - cursor,
{
    if cursor >= available || cursor < 0 || available > bytes.len() {
        if end > available {
            (RecordState::NeedsOverflow, serials)
        } else if header + body == payload {
            (RecordState::Complete, serials)
        } else {
            (RecordState::Invalid, serials)
        }
    } else {
        match varint_at(bytes.subrange(0, available), cursor) {
            None => if end > available {
                (RecordState::NeedsOverflow, serials)
            } else {
                (RecordState::Invalid, serials)
            },
            Some((serial, next)) => match serial_size(serial) {
                None => (RecordState::Invalid, serials),
                Some(size) => if body + size > u64::MAX || header + body + size > payload {
                    (RecordState::Invalid, serials)
                } else if next <= cursor || next > available {
                    (RecordState::Invalid, serials)
                } else {
                    record_walk(bytes, next, available, end, header, (body + size) as u64, payload, serials.push(serial))
                },
            },
        }
    }
}

/// The record-header facts established by a cell's local payload `bytes`
/// for a record of `payload` total bytes.
pub open spec fn spec_record(bytes: Seq<u8>, payload: u64) -> RecordView {
    match varint_at(bytes, 0) {
        None => RecordView { state: RecordState::Invalid, header_size: None, serial_types: seq![] },
        Some((header, cursor)) => if header < cursor || header > payload {
            RecordView { state: RecordState::Invalid, header_size: Some(header), serial_types: seq![] }
        } else {
            let available = if header < bytes.len() { header as int } else { bytes.len() as int };
            let walked = record_walk(bytes, cursor, available, header as int, header, 0, payload, seq![]);
            RecordView { state: walked.0, header_size: Some(header), serial_types: walked.1 }
        },
    }
}

/// Interprets a record header from a cell's local payload.
pub fn record(bytes: &[u8], payload: u64) -> (r: RecordDetail)
    ensures
        r@ == spec_record(bytes@, payload),
{
    let mut detail = RecordDetail { state: RecordState::Invalid, header_size: None, serial_types: Vec::new() };
    let mut cursor: usize = 0;
    let header = match varint(bytes, &mut cursor) {
        Ok(h) => h,
        Err(_) => return detail,
    };
    detail.header_size = Some(header);
    proof {
        lemma_varint_bounds(bytes@, 0);
    }
    if header < cursor as u64 || header > payload {
        return detail;
    }
    let end: u64 = header;
    let available: usize = if end < bytes.len() as u64 { end as usize } else { bytes.len() };
    let limited = slice_subrange(bytes, 0, available);
    let mut body: u64 = 0;
    let ghost first = cursor as int;
    while cursor < available
        invariant
            available <= bytes@.len(),
            varint_at(bytes@, 0) == Some((header, first)),
            header >= first,
            available as int == (if header < bytes@.len() { header as int } else { bytes@.len() as int }),
            limited@ == bytes@.subrange(0, available as int),
            end == header,
            header <= payload,
            header + body <= payload,
            record_walk(bytes@, cursor as int, available as int, end as int, header, body, payload, detail.serial_types@)
                == record_walk(bytes@, first, available as int, end as int, header, 0, payload, seq![]),
            detail.header_size == Some(header),
            detail.state == RecordState::Invalid,
        decreases available - cursor,
    {
        let ghost before = cursor as int;
        proof {
            lemma_varint_bounds(limited@, before);
        }
        let serial = match varint(limited, &mut cursor) {
            Ok(s) => s,
            Err(_) => {
                if end > available as u64 {
                    detail.state = RecordState::NeedsOverflow;
                }
                return detail;
            },
        };
        let size: u64 = if serial == 0 || serial == 8 || serial == 9 {
            0
        } else if 1 <= serial && serial <= 4 {
            serial
        } else if serial == 5 {
            6
        } else if serial == 6 || serial == 7 {
            8
        } else if serial == 10 || serial == 11 {
            return detail;
        } else {
            (serial - 12) / 2
        };
        if body > u64::MAX - size {
            return detail;
        }
        let next = body + size;
        if next > payload - header {
            return detail;
        }
        body = next;
        detail.serial_types.push(serial);
    }
    if end > available as u64 {
        detail.state = RecordState::NeedsOverflow;
    } else if header + body == payload {
        detail.state = RecordState::Complete;
    }
    detail
}

/// SQLite file format, section 1.7: the number of payload bytes stored on the
/// B-tree page itself; the rest spills to overflow pages.
pub open spec fn spec_local_payload(kind: Kind, usable: int, payload: int) -> int {
    let minimum = (usable - 12) * 32 / 255 - 23;
    let maximum = if kind is TableLeaf {
        usable - 35
    } else {
        (usable - 12) * 64 / 255 - 23
    };
    if payload <= maximum {
        payload
    } else {
        let candidate = minimum + (payload - minimum) % (usable - 4);
        if candidate <= maximum {
            candidate
        } else {
            minimum
        }
    }
}

/// Computes the locally stored payload size.
pub fn local_payload(kind: Kind, usable: u64, payload: u64) -> (r: u64)
    requires
        480 <= usable <= 65536,
    ensures
        r == spec_local_payload(kind, usable as int, payload as int),
        r <= payload,
        r <= usable - 35,
{
    let minimum = (usable - 12) * 32 / 255 - 23;
    let maximum = if let Kind::TableLeaf = kind {
        usable - 35
    } else {
        (usable - 12) * 64 / 255 - 23
    };
    proof {
        assert((usable - 12) * 32 / 255 <= (usable - 12) * 64 / 255) by (nonlinear_arith)
            requires usable >= 480;
        assert((usable - 12) * 64 / 255 <= usable - 35) by (nonlinear_arith)
            requires usable >= 480;
    }
    if payload <= maximum {
        payload
    } else {
        let candidate = minimum + (payload - minimum) % (usable - 4);
        if candidate <= maximum {
            candidate
        } else {
            minimum
        }
    }
}

/// One inspected page: its bytes, number, page size and usable size.
pub struct Page<'a> {
    pub bytes: &'a [u8],
    pub number: u32,
    pub size: u32,
    pub usable: usize,
}

/// A cell as it is known before its content is read: identity, pointer and offset.
pub open spec fn blank_cell(number: u32, size: u32, index: u16, pointer: int, offset: int) -> CellView {
    CellView {
        identity: CellIdentity { page_number: number, index },
        pointer: spec_range(number, size, pointer, 2),
        offset: offset as u32,
        range: None,
        rowid: None,
        left_child: None,
        left_child_pointer: None,
        payload_size: None,
        local_payload: None,
        overflow_page: None,
        overflow_pointer: None,
        record: None,
        diagnostic: None,
    }
}

/// The mathematical content of a page: its bytes, number, page size and usable size.
pub struct PageSpec {
    pub bytes: Seq<u8>,
    pub number: u32,
    pub size: u32,
    pub usable: usize,
}

impl<'a> View for Page<'a> {
    type V = PageSpec;

    open spec fn view(&self) -> PageSpec {
        PageSpec { bytes: self.bytes@, number: self.number, size: self.size, usable: self.usable }
    }
}

impl PageSpec {
    pub open spec fn wf(&self) -> bool {
        &&& self.bytes.len() == self.size
        &&& valid_page_size(self.size as int)
        &&& 480 <= self.usable <= self.size
        &&& self.number >= 1
    }

    /// The interpretation of the cell at `offset`, per its page kind.
    pub open spec fn spec_cell(&self, kind: Kind, blank: CellView) -> CellView {
        let b = self.bytes;
        let usable = self.usable as int;
        let limited = b.subrange(0, usable);
        let offset = blank.offset as int;
        let cursor = if kind.is_interior() { offset + 4 } else { offset };
        let child = be32(b, offset) as u32;
        if kind.is_interior() && offset + 4 > usable {
            CellView { diagnostic: Some(CellDiagnostic::InvalidCellExtent), ..blank }
        } else if kind is TableInterior {
            match varint_at(limited, cursor) {
                None => CellView { diagnostic: Some(CellDiagnostic::TruncatedVarint), ..blank },
                Some((rowid, next)) => CellView {
                    range: Some(spec_range(self.number, self.size, offset, next - offset)),
                    rowid: Some(rowid as i64),
                    left_child: Some(child),
                    left_child_pointer: Some(spec_range(self.number, self.size, offset, 4)),
                    ..blank
                },
            }
        } else {
            match varint_at(limited, cursor) {
                None => CellView { diagnostic: Some(CellDiagnostic::TruncatedVarint), ..blank },
                Some((payload, after_payload)) => if payload > 2_147_483_647 {
                    CellView { diagnostic: Some(CellDiagnostic::InvalidPayloadSize), ..blank }
                } else {
                    let rowid_read = varint_at(limited, after_payload);
                    if kind is TableLeaf && rowid_read is None {
                        CellView { diagnostic: Some(CellDiagnostic::TruncatedVarint), ..blank }
                    } else {
                        let content = if kind is TableLeaf { rowid_read.unwrap().1 } else { after_payload };
                        let local = spec_local_payload(kind, usable, payload as int);
                        let spill = payload > local;
                        let end = content + local + if spill { 4int } else { 0int };
                        if end > usable {
                            CellView { diagnostic: Some(CellDiagnostic::InvalidCellExtent), ..blank }
                        } else {
                            let record = spec_record(b.subrange(content, content + local), payload);
                            CellView {
                                range: Some(spec_range(self.number, self.size, offset, end - offset)),
                                rowid: if kind is TableLeaf { Some(rowid_read.unwrap().0 as i64) } else { None },
                                left_child: if kind.is_interior() { Some(child) } else { None },
                                left_child_pointer: if kind.is_interior() {
                                    Some(spec_range(self.number, self.size, offset, 4))
                                } else {
                                    None
                                },
                                payload_size: Some(payload),
                                local_payload: Some(spec_range(self.number, self.size, content, local)),
                                overflow_page: if spill { Some(be32(b, content + local) as u32) } else { None },
                                overflow_pointer: if spill {
                                    Some(spec_range(self.number, self.size, content + local, 4))
                                } else {
                                    None
                                },
                                record: Some(record),
                                diagnostic: if record.state is Invalid {
                                    Some(CellDiagnostic::InvalidRecord)
                                } else {
                                    None
                                },
                                ..blank
                            }
                        }
                    }
                },
            }
        }
    }

    /// Offset of the B-tree header: page 1 starts with the 100-byte database header.
    pub open spec fn base(&self) -> int {
        if self.number == 1 { 100 } else { 0 }
    }

    /// Regions every page has: the database header (page 1), the usable area,
    /// and the opaque reserved tail.
    pub open spec fn frame_regions(&self) -> Seq<Region> {
        let usable = Region { kind: RegionKind::UsableSpace, range: spec_range(self.number, self.size, 0, self.usable as int) };
        let reserved = Region {
            kind: RegionKind::OpaqueReserved,
            range: spec_range(self.number, self.size, self.usable as int, self.size - self.usable),
        };
        if self.number == 1 {
            seq![Region { kind: RegionKind::DatabaseHeader, range: spec_range(self.number, self.size, 0, 100) }, usable, reserved]
        } else {
            seq![usable, reserved]
        }
    }

    /// Cell `i` as its pointer and content describe it, before overlap containment.
    pub open spec fn raw_cell(&self, kind: Kind, header_size: int, start: int, i: int) -> CellView {
        let pointer = self.base() + header_size + 2 * i;
        let offset = be16(self.bytes, pointer);
        let blank = blank_cell(self.number, self.size, i as u16, pointer, offset);
        if offset < start || offset >= self.usable {
            CellView { diagnostic: Some(CellDiagnostic::InvalidCellPointer), ..blank }
        } else {
            self.spec_cell(kind, blank)
        }
    }

    /// Cells as their pointers and contents describe them, before containment.
    pub open spec fn raw_cells(&self, kind: Kind, header_size: int, start: int, count: int) -> Seq<CellView> {
        Seq::new(count as nat, |i: int| self.raw_cell(kind, header_size, start, i))
    }

    /// The freeblock chain of a B-tree page as published before containment.
    pub open spec fn chain_blocks(&self, start: int, first: int) -> Seq<Freeblock> {
        let chain = freeblock_chain(self.bytes, start, self.usable as int, first);
        Seq::new(chain.0.len(), |j: int| Freeblock {
            offset: chain.0[j].0 as u32,
            next: chain.0[j].1 as u32,
            range: Some(spec_range(self.number, self.size, chain.0[j].0, chain.0[j].2)),
            overlapping: false,
        })
    }

    /// The regions of a validated B-tree header layout.
    pub open spec fn structure_regions(&self, header_size: int, count: int, start: int) -> Seq<Region> {
        let base = self.base();
        let pointer_end = base + header_size + 2 * count;
        seq![
            Region { kind: RegionKind::BtreeHeader, range: spec_range(self.number, self.size, base, header_size) },
            Region { kind: RegionKind::CellPointerArray, range: spec_range(self.number, self.size, base + header_size, 2 * count) },
            Region { kind: RegionKind::Unallocated, range: spec_range(self.number, self.size, pointer_end, start - pointer_end) },
            Region { kind: RegionKind::CellContent, range: spec_range(self.number, self.size, start, self.usable - start) },
        ]
    }

    /// Fragment regions and page findings once cells and freeblocks are contained.
    pub open spec fn finish(&self, cells: Seq<CellView>, blocks: Seq<Freeblock>, chain_finding: Option<PageDiagnostic>, start: int, declared: int) -> (Seq<Region>, Seq<PageDiagnostic>) {
        let eligible = chain_finding is None
            && (forall|i: int| 0 <= i < cells.len() ==> (#[trigger] cells[i]).range is Some)
            && (forall|j: int| 0 <= j < blocks.len() ==> (#[trigger] blocks[j]).range is Some);
        let fragments = spec_fragments(cells, blocks, start, self.usable as int, declared);
        if eligible {
            (
                Seq::new(fragments.0.len(), |k: int| Region {
                    kind: RegionKind::Fragment,
                    range: spec_range(self.number, self.size, fragments.0[k].0, fragments.0[k].1 - fragments.0[k].0),
                }),
                match fragments.1 {
                    Some(d) => seq![d],
                    None => seq![],
                },
            )
        } else {
            (seq![], match chain_finding {
                Some(d) => seq![d],
                None => seq![],
            })
        }
    }

    /// The complete local interpretation of this page.
    pub open spec fn spec_inspect(&self) -> PageView {
        let b = self.bytes;
        let base = self.base();
        let unsupported = PageView {
            kind: None,
            allocation_role: None,
            header: None,
            regions: self.frame_regions(),
            cells: seq![],
            freeblocks: seq![],
            diagnostics: seq![],
            coverage: LocalCoverage::Unsupported,
        };
        match Kind::from_byte(b[base]) {
            None => unsupported,
            Some(kind) => {
                let header_size = if kind.is_interior() { 12int } else { 8int };
                let count = be16(b, base + 3);
                let start = if be16(b, base + 5) == 0 { 65536 } else { be16(b, base + 5) };
                let pointer_end = base + header_size + 2 * count;
                let usable = self.usable as int;
                if pointer_end > start || start > usable || b[base + 7] > 60 {
                    PageView { diagnostics: seq![PageDiagnostic::InvalidBtreeHeader], coverage: LocalCoverage::Partial, ..unsupported }
                } else {
                    let header = BtreeHeader {
                        range: spec_range(self.number, self.size, base, header_size),
                        first_freeblock: be16(b, base + 1) as u32,
                        cell_count: count as u16,
                        content_start: start as u32,
                        fragmented_bytes: b[base + 7],
                        rightmost_child: if kind.is_interior() { Some(be32(b, base + 8) as u32) } else { None },
                    };
                    let raw = self.raw_cells(kind, header_size, start, count);
                    let blocks0 = self.chain_blocks(start, be16(b, base + 1));
                    let ext = extents(raw, blocks0, start, usable);
                    let cells = Seq::new(raw.len(), |i: int| if overlapped(ext, i) { withheld(raw[i]) } else { raw[i] });
                    let blocks = Seq::new(blocks0.len(), |j: int| if overlapped(ext, raw.len() + j) {
                        Freeblock { range: None, overlapping: true, ..blocks0[j] }
                    } else {
                        blocks0[j]
                    });
                    let chain_finding = freeblock_chain(b, start, usable, be16(b, base + 1)).1;
                    let done = self.finish(cells, blocks, chain_finding, start, b[base + 7] as int);
                    PageView {
                        kind: Some(kind),
                        allocation_role: None,
                        header: Some(header),
                        regions: self.frame_regions() + self.structure_regions(header_size, count, start) + done.0,
                        cells,
                        freeblocks: blocks,
                        diagnostics: done.1,
                        coverage: if done.1.len() > 0 || cells_incomplete(cells) {
                            LocalCoverage::Partial
                        } else {
                            LocalCoverage::Complete
                        },
                    }
                }
            },
        }
    }
}

impl<'a> Page<'a> {
    /// The extent `[start, start + length)` of this page.
    pub fn range(&self, start: usize, length: usize) -> (r: ByteRange)
        requires
            self@.wf(),
            start + length <= self.size,
        ensures
            r == spec_range(self.number, self.size, start as int, length as int),
    {
        proof {
            assert((self.number - 1) * self.size <= 0xffff_ffffu64 * 65536) by (nonlinear_arith)
                requires self.number <= 0xffff_ffff, self.size <= 65536, self.number >= 1;
        }
        ByteRange {
            page_offset: start as u32,
            file_offset: (self.number - 1) as u64 * self.size as u64 + start as u64,
            length: length as u32,
        }
    }

    /// Interprets the cell whose content starts at `offset` (already checked to
    /// lie within the cell content area).
    pub fn cell(&self, kind: Kind, index: u16, pointer: usize, offset: usize) -> (r: CellDetail)
        requires
            self@.wf(),
            pointer + 2 <= self.size,
            offset < self.usable,
        ensures
            r@ == self@.spec_cell(kind, blank_cell(self.number, self.size, index, pointer as int, offset as int)),
    {
        let mut cell = CellDetail {
            identity: CellIdentity { page_number: self.number, index },
            pointer: self.range(pointer, 2),
            offset: offset as u32,
            range: None,
            rowid: None,
            left_child: None,
            left_child_pointer: None,
            payload_size: None,
            local_payload: None,
            overflow_page: None,
            overflow_pointer: None,
            record: None,
            diagnostic: None,
        };
        let usable = self.usable;
        let limited = slice_subrange(self.bytes, 0, usable);
        let mut cursor = offset;
        let mut child: Option<u32> = None;
        if kind.interior() {
            if cursor + 4 > usable {
                cell.diagnostic = Some(CellDiagnostic::InvalidCellExtent);
                return cell;
            }
            child = Some(dword(self.bytes, cursor));
            cursor = cursor + 4;
        }
        if let Kind::TableInterior = kind {
            let rowid = match varint(limited, &mut cursor) {
                Ok(v) => v,
                Err(_) => {
                    cell.diagnostic = Some(CellDiagnostic::TruncatedVarint);
                    return cell;
                },
            };
            proof {
                lemma_varint_bounds(limited@, offset + 4);
            }
            cell.range = Some(self.range(offset, cursor - offset));
            cell.rowid = Some(rowid as i64);
            cell.left_child = child;
            cell.left_child_pointer = Some(self.range(offset, 4));
            return cell;
        }
        let ghost before_payload = cursor as int;
        let payload = match varint(limited, &mut cursor) {
            Ok(v) => v,
            Err(_) => {
                cell.diagnostic = Some(CellDiagnostic::TruncatedVarint);
                return cell;
            },
        };
        proof {
            lemma_varint_bounds(limited@, before_payload);
        }
        if payload > 2_147_483_647 {
            cell.diagnostic = Some(CellDiagnostic::InvalidPayloadSize);
            return cell;
        }
        let ghost after_payload = cursor as int;
        let mut rowid: Option<u64> = None;
        if let Kind::TableLeaf = kind {
            match varint(limited, &mut cursor) {
                Ok(v) => {
                    rowid = Some(v);
                },
                Err(_) => {
                    cell.diagnostic = Some(CellDiagnostic::TruncatedVarint);
                    return cell;
                },
            }
            proof {
                lemma_varint_bounds(limited@, after_payload);
            }
        }
        let local = local_payload(kind, usable as u64, payload) as usize;
        let spill = payload > local as u64;
        let extra: usize = if spill { 4 } else { 0 };
        if cursor + local + extra > usable {
            cell.diagnostic = Some(CellDiagnostic::InvalidCellExtent);
            return cell;
        }
        let end = cursor + local + extra;
        cell.range = Some(self.range(offset, end - offset));
        cell.rowid = match rowid {
            Some(v) => Some(v as i64),
            None => None,
        };
        cell.left_child = child;
        if kind.interior() {
            cell.left_child_pointer = Some(self.range(offset, 4));
        }
        cell.payload_size = Some(payload);
        cell.local_payload = Some(self.range(cursor, local));
        if spill {
            cell.overflow_page = Some(dword(self.bytes, cursor + local));
            cell.overflow_pointer = Some(self.range(cursor + local, 4));
        }
        let content = slice_subrange(self.bytes, cursor, cursor + local);
        let detail = record(content, payload);
        if let RecordState::Invalid = detail.state {
            cell.diagnostic = Some(CellDiagnostic::InvalidRecord);
        }
        cell.record = Some(detail);
        cell
    }
}

/// A freeblock as recorded by the chain walk: `(offset, next, size)`.
pub type FreeblockEntry = (int, int, int);

/// The freeblock chain that starts at `offset`: every block lies within
/// `[start, usable)`, is at least four bytes long, and links forward past its
/// own end. The walk stops at the first violation, which it reports.
pub open spec fn freeblock_chain(b: Seq<u8>, start: int, usable: int, offset: int) -> (Seq<FreeblockEntry>, Option<PageDiagnostic>)
    decreases 65536 - offset,
{
    if offset == 0 {
        (seq![], None)
    } else if offset < start || offset + 4 > usable || usable > b.len() || offset > 65535 {
        (seq![], Some(PageDiagnostic::InvalidFreeblockExtent))
    } else {
        let next = be16(b, offset);
        let size = be16(b, offset + 2);
        if size < 4 || offset + size > usable {
            (seq![], Some(PageDiagnostic::InvalidFreeblockExtent))
        } else if next != 0 && next < offset + size {
            (seq![(offset, next, size)], Some(PageDiagnostic::InvalidFreeblockLink))
        } else if next == 0 {
            (seq![(offset, next, size)], None)
        } else {
            let rest = freeblock_chain(b, start, usable, next);
            (seq![(offset, next, size)] + rest.0, rest.1)
        }
    }
}

/// The half-open extent a cell occupies, when its pointer lies in the content area.
pub open spec fn cell_extent(c: CellView, start: int, usable: int) -> Option<(int, int)> {
    if start <= c.offset < usable {
        Some((c.offset as int, match c.range {
            Some(r) => r.page_offset + r.length,
            None => c.offset + 1,
        }))
    } else {
        None
    }
}

pub open spec fn block_extent(f: Freeblock) -> Option<(int, int)> {
    match f.range {
        Some(r) => Some((r.page_offset as int, r.page_offset + r.length)),
        None => None,
    }
}

pub open spec fn intersects(a: (int, int), b: (int, int)) -> bool {
    a.0 < b.1 && b.0 < a.1
}

/// Allocation extents of a page: cells first, then freeblocks.
pub open spec fn extents(cells: Seq<CellView>, blocks: Seq<Freeblock>, start: int, usable: int) -> Seq<Option<(int, int)>> {
    Seq::new(cells.len(), |i: int| cell_extent(cells[i], start, usable)) + Seq::new(blocks.len(), |j: int| block_extent(blocks[j]))
}

/// Whether allocation `k` shares a byte with another allocation.
pub open spec fn overlapped(ext: Seq<Option<(int, int)>>, k: int) -> bool {
    &&& ext[k] is Some
    &&& exists|j: int| 0 <= j < ext.len() && j != k && #[trigger] ext[j] is Some && intersects(ext[k].unwrap(), ext[j].unwrap())
}

/// A cell whose allocation conflicts with another keeps its physical identity
/// but publishes no interpreted fact.
pub open spec fn withheld(c: CellView) -> CellView {
    CellView {
        range: None,
        rowid: None,
        left_child: None,
        left_child_pointer: None,
        payload_size: None,
        local_payload: None,
        overflow_page: None,
        overflow_pointer: None,
        record: None,
        diagnostic: Some(CellDiagnostic::OverlappingAllocation),
        ..c
    }
}

impl<'a> Page<'a> {
    /// Walks the freeblock chain that starts at `first`.
    pub fn freeblocks(&self, start: usize, first: usize) -> (r: (Vec<Freeblock>, Option<PageDiagnostic>))
        requires
            self@.wf(),
            first <= 65535,
            start <= self.usable,
        ensures
            ({
                let chain = freeblock_chain(self.bytes@, start as int, self.usable as int, first as int);
                &&& r.1 == chain.1
                &&& r.0@.len() == chain.0.len()
                &&& forall|j: int| 0 <= j < chain.0.len() ==> #[trigger] r.0@[j] == (Freeblock {
                    offset: chain.0[j].0 as u32,
                    next: chain.0[j].1 as u32,
                    range: Some(spec_range(self.number, self.size, chain.0[j].0, chain.0[j].2)),
                    overlapping: false,
                })
            }),
    {
        let ghost b = self.bytes@;
        let ghost total = freeblock_chain(b, start as int, self.usable as int, first as int);
        let mut blocks: Vec<Freeblock> = Vec::new();
        let mut offset = first;
        let ghost mut done: Seq<FreeblockEntry> = seq![];
        while offset != 0
            invariant
                self@.wf(),
                b == self.bytes@,
                total == freeblock_chain(b, start as int, self.usable as int, first as int),
                start <= self.usable,
                offset <= 65535,
                total.1 == freeblock_chain(b, start as int, self.usable as int, offset as int).1,
                total.0 == done + freeblock_chain(b, start as int, self.usable as int, offset as int).0,
                blocks@.len() == done.len(),
                forall|j: int| 0 <= j < done.len() ==> #[trigger] blocks@[j] == (Freeblock {
                    offset: done[j].0 as u32,
                    next: done[j].1 as u32,
                    range: Some(spec_range(self.number, self.size, done[j].0, done[j].2)),
                    overlapping: false,
                }),
            decreases (if offset == 0 { 0 } else { 65536 - offset }),
        {
            if offset < start || offset + 4 > self.usable {
                assert(total.0 =~= done);
                return (blocks, Some(PageDiagnostic::InvalidFreeblockExtent));
            }
            let next = word(self.bytes, offset) as usize;
            let size = word(self.bytes, offset + 2) as usize;
            if size < 4 || offset + size > self.usable {
                assert(total.0 =~= done);
                return (blocks, Some(PageDiagnostic::InvalidFreeblockExtent));
            }
            let block = Freeblock {
                offset: offset as u32,
                next: next as u32,
                range: Some(self.range(offset, size)),
                overlapping: false,
            };
            blocks.push(block);
            proof {
                done = done.push((offset as int, next as int, size as int));
            }
            if next != 0 && next < offset + size {
                assert(total.0 =~= done);
                return (blocks, Some(PageDiagnostic::InvalidFreeblockLink));
            }
            proof {
                if next == 0 {
                    assert(total.0 =~= done);
                } else {
                    assert(total.0 =~= done + freeblock_chain(b, start as int, self.usable as int, next as int).0);
                }
            }
            offset = next;
        }
        assert(total.0 =~= done);
        (blocks, None)
    }
}

/// The view of every cell in a vector.
pub open spec fn cell_views(cells: Seq<CellDetail>) -> Seq<CellView> {
    Seq::new(cells.len(), |i: int| cells[i]@)
}

/// Executable extent of allocation `k`: `(start, end, present)`.
pub open spec fn extent_entry(e: Option<(int, int)>, entry: (u64, u64, bool)) -> bool {
    match e {
        Some(x) => entry.2 && entry.0 == x.0 && entry.1 == x.1,
        None => !entry.2,
    }
}

/// Withholds the interpretation of every cell and freeblock whose allocation
/// shares a byte with another, so conflicting cells never publish facts.
pub fn contain_overlaps(cells: &mut Vec<CellDetail>, blocks: &mut Vec<Freeblock>, start: usize, usable: usize)
    ensures
        ({
            let ext = extents(cell_views(old(cells)@), old(blocks)@, start as int, usable as int);
            &&& final(cells)@.len() == old(cells)@.len()
            &&& final(blocks)@.len() == old(blocks)@.len()
            &&& forall|i: int| 0 <= i < old(cells)@.len() ==> #[trigger] final(cells)@[i]@ == (if overlapped(ext, i) {
                withheld(old(cells)@[i]@)
            } else {
                old(cells)@[i]@
            })
            &&& forall|j: int| 0 <= j < old(blocks)@.len() ==> #[trigger] final(blocks)@[j] == (if overlapped(ext, old(cells)@.len() + j) {
                Freeblock { range: None, overlapping: true, ..old(blocks)@[j] }
            } else {
                old(blocks)@[j]
            })
        }),
{
    let ghost ext = extents(cell_views(cells@), blocks@, start as int, usable as int);
    let n = cells.len();
    let m = blocks.len();
    let mut entries: Vec<(u64, u64, bool)> = Vec::new();
    let mut i: usize = 0;
    while i < n
        invariant
            n == cells@.len(),
            i <= n,
            entries@.len() == i,
            ext == extents(cell_views(cells@), blocks@, start as int, usable as int),
            forall|k: int| 0 <= k < i ==> extent_entry(ext[k], #[trigger] entries@[k]),
        decreases n - i,
    {
        let cell = &cells[i];
        let offset = cell.offset as u64;
        let present = start as u64 <= offset && offset < usable as u64;
        let end: u64 = match cell.range {
            Some(r) => r.page_offset as u64 + r.length as u64,
            None => offset + 1,
        };
        entries.push((offset, end, present));
        i = i + 1;
    }
    let mut j: usize = 0;
    while j < m
        invariant
            n == cells@.len(),
            m == blocks@.len(),
            j <= m,
            entries@.len() == n + j,
            ext == extents(cell_views(cells@), blocks@, start as int, usable as int),
            forall|k: int| 0 <= k < n + j ==> extent_entry(ext[k], #[trigger] entries@[k]),
        decreases m - j,
    {
        let entry: (u64, u64, bool) = match blocks[j].range {
            Some(r) => (r.page_offset as u64, r.page_offset as u64 + r.length as u64, true),
            None => (0, 0, false),
        };
        entries.push(entry);
        j = j + 1;
    }
    let total = entries.len();
    assert(ext.len() == total);
    let mut flags: Vec<bool> = Vec::new();
    let mut k: usize = 0;
    while k < total
        invariant
            total == ext.len(),
            entries@.len() == total,
            forall|x: int| 0 <= x < total ==> extent_entry(ext[x], #[trigger] entries@[x]),
            k <= total,
            flags@.len() == k,
            forall|x: int| 0 <= x < k ==> #[trigger] flags@[x] == overlapped(ext, x),
        decreases total - k,
    {
        let mut found = false;
        let (ks, ke, kp) = entries[k];
        if kp {
            let mut other: usize = 0;
            while other < total
                invariant
                    total == ext.len(),
                    entries@.len() == total,
                    forall|x: int| 0 <= x < total ==> extent_entry(ext[x], #[trigger] entries@[x]),
                    k < total,
                    entries@[k as int] == (ks, ke, kp),
                    kp,
                    other <= total,
                    found == exists|y: int| 0 <= y < other && y != k && #[trigger] ext[y] is Some && intersects(ext[k as int].unwrap(), ext[y].unwrap()),
                decreases total - other,
            {
                let (os, oe, op) = entries[other];
                if other != k && op && ks < oe && os < ke {
                    found = true;
                }
                proof {
                    assert(extent_entry(ext[other as int], entries@[other as int]));
                    assert(extent_entry(ext[k as int], entries@[k as int]));
                }
                other = other + 1;
            }
        }
        proof {
            assert(extent_entry(ext[k as int], entries@[k as int]));
        }
        flags.push(found);
        k = k + 1;
    }
    let ghost old_cells = cells@;
    let ghost old_blocks = blocks@;
    let mut i: usize = 0;
    while i < n
        invariant
            n == old_cells.len(),
            cells@.len() == n,
            flags@.len() == n + m,
            forall|x: int| 0 <= x < n + m ==> #[trigger] flags@[x] == overlapped(ext, x),
            i <= n,
            forall|x: int| 0 <= x < i ==> #[trigger] cells@[x]@ == (if overlapped(ext, x) { withheld(old_cells[x]@) } else { old_cells[x]@ }),
            forall|x: int| i <= x < n ==> #[trigger] cells@[x] == old_cells[x],
        decreases n - i,
    {
        if flags[i] {
            let identity = cells[i].identity;
            let pointer = cells[i].pointer;
            let offset = cells[i].offset;
            cells.set(i, CellDetail {
                identity,
                pointer,
                offset,
                range: None,
                rowid: None,
                left_child: None,
                left_child_pointer: None,
                payload_size: None,
                local_payload: None,
                overflow_page: None,
                overflow_pointer: None,
                record: None,
                diagnostic: Some(CellDiagnostic::OverlappingAllocation),
            });
        }
        i = i + 1;
    }
    let flag_count = flags.len();
    let mut j: usize = 0;
    while j < m
        invariant
            flag_count == flags@.len(),
            m == old_blocks.len(),
            blocks@.len() == m,
            flags@.len() == n + m,
            forall|x: int| 0 <= x < n + m ==> #[trigger] flags@[x] == overlapped(ext, x),
            j <= m,
            forall|x: int| 0 <= x < j ==> #[trigger] blocks@[x] == (if overlapped(ext, n + x) {
                Freeblock { range: None, overlapping: true, ..old_blocks[x] }
            } else {
                old_blocks[x]
            }),
            forall|x: int| j <= x < m ==> #[trigger] blocks@[x] == old_blocks[x],
        decreases m - j,
    {
        if flags[n + j] {
            let block = blocks[j];
            blocks.set(j, Freeblock { range: None, overlapping: true, ..block });
        }
        j = j + 1;
    }
}

/// The byte extents allocated to cells and freeblocks that carry a range.
pub open spec fn allocation_ranges(cells: Seq<CellView>, blocks: Seq<Freeblock>) -> Seq<(int, int)> {
    Seq::new(cells.len(), |i: int| match cells[i].range {
        Some(r) => (r.page_offset as int, r.page_offset + r.length),
        None => (0int, 0int),
    }) + Seq::new(blocks.len(), |j: int| match blocks[j].range {
        Some(r) => (r.page_offset as int, r.page_offset + r.length),
        None => (0int, 0int),
    })
}

/// For each byte of `[start, usable)`, whether some allocation covers it.
pub open spec fn coverage_map(ranges: Seq<(int, int)>, start: int, usable: int) -> Seq<bool> {
    Seq::new((usable - start) as nat, |i: int| exists|k: int| 0 <= k < ranges.len() && #[trigger] ranges[k].0 <= start + i < ranges[k].1)
}

/// The maximal runs of uncovered positions of `cov`, in increasing order,
/// appended to `acc`; `run` is the start of the run in progress at `i`.
pub open spec fn gap_runs(cov: Seq<bool>, i: int, run: Option<int>, acc: Seq<(int, int)>) -> Seq<(int, int)>
    decreases cov.len() - i,
{
    if i >= cov.len() || i < 0 {
        match run {
            Some(s) => acc.push((s, cov.len() as int)),
            None => acc,
        }
    } else if !cov[i] {
        gap_runs(cov, i + 1, if run is None { Some(i) } else { run }, acc)
    } else {
        match run {
            Some(s) => gap_runs(cov, i + 1, None, acc.push((s, i))),
            None => gap_runs(cov, i + 1, None, acc),
        }
    }
}

pub open spec fn run_length(run: (int, int)) -> int {
    run.1 - run.0
}

pub open spec fn run_total(runs: Seq<(int, int)>) -> int
    decreases runs.len(),
{
    if runs.len() == 0 {
        0
    } else {
        run_total(runs.drop_last()) + (runs.last().1 - runs.last().0)
    }
}

/// Fragments of the cell content area: gaps between allocations of at most
/// three bytes, which must add up to the header's fragmented-byte count.
/// Returns the fragments (page offsets) to publish and the finding, if any.
pub open spec fn spec_fragments(cells: Seq<CellView>, blocks: Seq<Freeblock>, start: int, usable: int, declared: int) -> (Seq<(int, int)>, Option<PageDiagnostic>) {
    let cov = coverage_map(allocation_ranges(cells, blocks), start, usable);
    let runs = gap_runs(cov, 0, None, seq![]);
    let shifted = Seq::new(runs.len(), |k: int| (runs[k].0 + start, runs[k].1 + start));
    if exists|k: int| 0 <= k < runs.len() && #[trigger] run_length(runs[k]) > 3 {
        (seq![], Some(PageDiagnostic::UntrackedFreeSpace))
    } else if run_total(runs) != declared {
        (shifted, Some(PageDiagnostic::FragmentCountMismatch))
    } else {
        (shifted, None)
    }
}

/// Marks the positions of `[s, e)` that fall inside `[start, usable)`.
fn mark_covered(cov: &mut Vec<bool>, start: usize, usable: usize, s: u64, e: u64)
    requires
        start <= usable,
        old(cov)@.len() == usable - start,
    ensures
        final(cov)@.len() == old(cov)@.len(),
        forall|y: int| 0 <= y < old(cov)@.len() ==> #[trigger] final(cov)@[y] == (old(cov)@[y] || (s <= start + y < e)),
{
    let width = usable - start;
    let ghost before = cov@;
    let lo: u64 = if s < start as u64 { start as u64 } else { s };
    let hi: u64 = if e > usable as u64 { usable as u64 } else { e };
    let mut p: u64 = lo;
    while p < hi
        invariant
            start <= lo,
            hi <= usable,
            s <= lo,
            hi <= e,
            lo <= p,
            lo <= hi ==> p <= hi,
            hi < lo ==> p == lo,
            width == usable - start,
            cov@.len() == width,
            before.len() == width,
            forall|y: int| 0 <= y < width ==> #[trigger] cov@[y] == (before[y] || (lo <= start + y < p)),
        decreases hi - p,
    {
        cov.set((p as usize) - start, true);
        p = p + 1;
    }
}

/// Extending the covered prefix of allocations by allocation `k`.
proof fn lemma_extend_cover(ranges: Seq<(int, int)>, cov: Seq<bool>, start: int, width: int, k: int)
    requires
        0 <= k < ranges.len(),
        cov.len() == width,
        forall|y: int| 0 <= y < width ==> #[trigger] cov[y] == ((exists|q: int| 0 <= q < k && #[trigger] ranges[q].0 <= start + y < ranges[q].1)
            || (ranges[k].0 <= start + y < ranges[k].1)),
    ensures
        forall|y: int| 0 <= y < width ==> #[trigger] cov[y] == exists|q: int| 0 <= q < k + 1 && #[trigger] ranges[q].0 <= start + y < ranges[q].1,
{
    assert forall|y: int| 0 <= y < width implies #[trigger] cov[y] == exists|q: int| 0 <= q < k + 1 && #[trigger] ranges[q].0 <= start + y < ranges[q].1 by {
        if ranges[k].0 <= start + y < ranges[k].1 {
            assert(ranges[k].0 <= start + y < ranges[k].1);
        }
        if exists|q: int| 0 <= q < k + 1 && #[trigger] ranges[q].0 <= start + y < ranges[q].1 {
            let q = choose|q: int| 0 <= q < k + 1 && #[trigger] ranges[q].0 <= start + y < ranges[q].1;
            if q < k {
                assert(exists|q: int| 0 <= q < k && #[trigger] ranges[q].0 <= start + y < ranges[q].1);
            }
        }
    }
}

impl<'a> Page<'a> {
    /// Locates the fragments between the allocations of a page whose every
    /// allocation boundary is known.
    pub fn fragments(&self, cells: &Vec<CellDetail>, blocks: &Vec<Freeblock>, start: usize, declared: u8) -> (r: (Vec<(usize, usize)>, Option<PageDiagnostic>))
        requires
            self@.wf(),
            start <= self.usable,
        ensures
            ({
                let expected = spec_fragments(cell_views(cells@), blocks@, start as int, self.usable as int, declared as int);
                &&& r.1 == expected.1
                &&& r.0@.len() == expected.0.len()
                &&& forall|k: int| 0 <= k < r.0@.len() ==> (#[trigger] r.0@[k]).0 == expected.0[k].0 && r.0@[k].1 == expected.0[k].1
                &&& forall|k: int| 0 <= k < r.0@.len() ==> start <= (#[trigger] r.0@[k]).0 < r.0@[k].1 <= self.usable
            }),
    {
        let usable = self.usable;
        let width = usable - start;
        let ghost ranges = allocation_ranges(cell_views(cells@), blocks@);
        let mut cov: Vec<bool> = Vec::new();
        let mut x: usize = 0;
        while x < width
            invariant
                x <= width,
                cov@.len() == x,
                forall|y: int| 0 <= y < x ==> !(#[trigger] cov@[y]),
            decreases width - x,
        {
            cov.push(false);
            x = x + 1;
        }
        let n = cells.len();
        let m = blocks.len();
        let mut k: usize = 0;
        while k < n
            invariant
                n == cells@.len(),
                m == blocks@.len(),
                ranges == allocation_ranges(cell_views(cells@), blocks@),
                width == usable - start,
                usable == self.usable,
                start <= usable,
                k <= n,
                cov@.len() == width,
                forall|y: int| 0 <= y < width ==> #[trigger] cov@[y] == exists|q: int| 0 <= q < k && #[trigger] ranges[q].0 <= start + y < ranges[q].1,
            decreases n - k,
        {
            let (s, e): (u64, u64) = match cells[k].range {
                Some(r) => (r.page_offset as u64, r.page_offset as u64 + r.length as u64),
                None => (0, 0),
            };
            assert(ranges[k as int] == (s as int, e as int));
            mark_covered(&mut cov, start, usable, s, e);
            proof {
                lemma_extend_cover(ranges, cov@, start as int, width as int, k as int);
            }
            k = k + 1;
        }
        let mut j: usize = 0;
        while j < m
            invariant
                n == cells@.len(),
                m == blocks@.len(),
                ranges == allocation_ranges(cell_views(cells@), blocks@),
                width == usable - start,
                usable == self.usable,
                start <= usable,
                j <= m,
                cov@.len() == width,
                forall|y: int| 0 <= y < width ==> #[trigger] cov@[y] == exists|q: int| 0 <= q < n + j && #[trigger] ranges[q].0 <= start + y < ranges[q].1,
            decreases m - j,
        {
            let (s, e): (u64, u64) = match blocks[j].range {
                Some(r) => (r.page_offset as u64, r.page_offset as u64 + r.length as u64),
                None => (0, 0),
            };
            assert(ranges[n + j] == (s as int, e as int));
            mark_covered(&mut cov, start, usable, s, e);
            proof {
                lemma_extend_cover(ranges, cov@, start as int, width as int, n + j);
            }
            j = j + 1;
        }
        assert(ranges.len() == n + m);
        let ghost covmap = coverage_map(ranges, start as int, usable as int);
        assert(cov@ =~= covmap);
        let mut runs: Vec<(usize, usize)> = Vec::new();
        let mut run: Option<usize> = None;
        let mut i: usize = 0;
        assert(Seq::new(runs@.len(), |q: int| (runs@[q].0 as int, runs@[q].1 as int)) =~= Seq::<(int, int)>::empty());
        while i < width
            invariant
                cov@ == covmap,
                width == cov@.len(),
                i <= width,
                run matches Some(s0) ==> s0 < i,
                gap_runs(covmap, i as int, match run { Some(s0) => Some(s0 as int), None => None }, Seq::new(runs@.len(), |q: int| (runs@[q].0 as int, runs@[q].1 as int)))
                    == gap_runs(covmap, 0, None, seq![]),
                forall|q: int| 0 <= q < runs@.len() ==> (#[trigger] runs@[q]).0 < runs@[q].1 <= i,
                runs@.len() <= i,
                run matches Some(s0) ==> runs@.len() <= s0,
            decreases width - i,
        {
            let ghost old_runs = Seq::new(runs@.len(), |q: int| (runs@[q].0 as int, runs@[q].1 as int));
            if !cov[i] {
                if run.is_none() {
                    run = Some(i);
                }
            } else {
                if let Some(s0) = run {
                    runs.push((s0, i));
                    assert(Seq::new(runs@.len(), |q: int| (runs@[q].0 as int, runs@[q].1 as int)) =~= old_runs.push((s0 as int, i as int)));
                    run = None;
                }
            }
            i = i + 1;
        }
        if let Some(s0) = run {
            let ghost old_runs = Seq::new(runs@.len(), |q: int| (runs@[q].0 as int, runs@[q].1 as int));
            runs.push((s0, width));
            assert(Seq::new(runs@.len(), |q: int| (runs@[q].0 as int, runs@[q].1 as int)) =~= old_runs.push((s0 as int, width as int)));
        }
        let ghost all = gap_runs(covmap, 0, None, seq![]);

        assert(Seq::new(runs@.len(), |q: int| (runs@[q].0 as int, runs@[q].1 as int)) =~= all);
        let mut total: usize = 0;
        let mut q: usize = 0;
        while q < runs.len()
            invariant
                q <= runs@.len(),
                all == gap_runs(coverage_map(allocation_ranges(cell_views(cells@), blocks@), start as int, usable as int), 0, None, seq![]),
                usable == self.usable,
                width <= 65536,
                runs@.len() <= width,
                all == Seq::new(runs@.len(), |z: int| (runs@[z].0 as int, runs@[z].1 as int)),
                forall|z: int| 0 <= z < runs@.len() ==> (#[trigger] runs@[z]).0 < runs@[z].1 <= width,
                forall|z: int| 0 <= z < q ==> (#[trigger] runs@[z]).1 - runs@[z].0 <= 3,
                total == run_total(all.subrange(0, q as int)),
                total <= 3 * q,
            decreases runs@.len() - q,
        {
            let (a, b) = runs[q];
            if b - a > 3 {
                assert(run_length(all[q as int]) > 3);
                return (Vec::new(), Some(PageDiagnostic::UntrackedFreeSpace));
            }
            assert(all.subrange(0, q as int + 1).drop_last() =~= all.subrange(0, q as int));
            total = total + (b - a);
            q = q + 1;
        }
        assert(all.subrange(0, q as int) =~= all);
        let mut shifted: Vec<(usize, usize)> = Vec::new();
        let mut z: usize = 0;
        while z < runs.len()
            invariant
                z <= runs@.len(),
                all == gap_runs(coverage_map(allocation_ranges(cell_views(cells@), blocks@), start as int, usable as int), 0, None, seq![]),
                width == usable - start,
                all == Seq::new(runs@.len(), |w: int| (runs@[w].0 as int, runs@[w].1 as int)),
                forall|w: int| 0 <= w < runs@.len() ==> (#[trigger] runs@[w]).0 < runs@[w].1 <= width,
                shifted@.len() == z,
                forall|w: int| 0 <= w < z ==> (#[trigger] shifted@[w]).0 == all[w].0 + start && shifted@[w].1 == all[w].1 + start,
            decreases runs@.len() - z,
        {
            let (a, b) = runs[z];
            shifted.push((a + start, b + start));
            z = z + 1;
        }
        if total != declared as usize {
            (shifted, Some(PageDiagnostic::FragmentCountMismatch))
        } else {
            (shifted, None)
        }
    }
}

/// Spec-level page facts.
pub struct PageView {
    pub kind: Option<Kind>,
    pub allocation_role: Option<AllocationRole>,
    pub header: Option<BtreeHeader>,
    pub regions: Seq<Region>,
    pub cells: Seq<CellView>,
    pub freeblocks: Seq<Freeblock>,
    pub diagnostics: Seq<PageDiagnostic>,
    pub coverage: LocalCoverage,
}

impl View for PageDetail {
    type V = PageView;

    open spec fn view(&self) -> PageView {
        PageView {
            kind: self.kind,
            allocation_role: self.allocation_role,
            header: self.header,
            regions: self.regions@,
            cells: cell_views(self.cells@),
            freeblocks: self.freeblocks@,
            diagnostics: self.diagnostics@,
            coverage: self.coverage,
        }
    }
}

/// The detail of a page whose bytes could not be read.
pub open spec fn spec_read_failure() -> PageView {
    PageView {
        kind: None,
        allocation_role: None,
        header: None,
        regions: seq![],
        cells: seq![],
        freeblocks: seq![],
        diagnostics: seq![PageDiagnostic::PageReadFailed],
        coverage: LocalCoverage::Partial,
    }
}

impl PageDetail {
    /// The detail of a page whose bytes could not be read.
    pub fn read_failure() -> (r: PageDetail)
        ensures
            r@ == spec_read_failure(),
    {
        let mut diagnostics = Vec::new();
        diagnostics.push(PageDiagnostic::PageReadFailed);
        let r = PageDetail {
            kind: None,
            allocation_role: None,
            header: None,
            regions: Vec::new(),
            cells: Vec::new(),
            freeblocks: Vec::new(),
            diagnostics,
            coverage: LocalCoverage::Partial,
        };
        assert(r@.cells =~= Seq::<CellView>::empty());
        assert(r@.regions =~= Seq::<Region>::empty());
        assert(r@.freeblocks =~= Seq::<Freeblock>::empty());
        assert(r@.diagnostics =~= seq![PageDiagnostic::PageReadFailed]);
        r
    }
}

/// Whether any cell or record carries an unresolved finding.
pub open spec fn cells_incomplete(cells: Seq<CellView>) -> bool {
    exists|i: int| 0 <= i < cells.len() && #[trigger] cell_incomplete(cells[i])
}

pub open spec fn cell_incomplete(c: CellView) -> bool {
    c.diagnostic is Some || (c.record matches Some(r) && r.state != RecordState::Complete)
}


impl<'a> Page<'a> {
    /// Reads every cell pointer and interprets the cell it names.
    fn collect_cells(&self, kind: Kind, header_size: usize, start: usize, count: u16) -> (r: Vec<CellDetail>)
        requires
            self@.wf(),
            header_size as int == (if kind.is_interior() { 12int } else { 8int }),
            self@.base() + header_size + 2 * count <= start <= self.usable,
        ensures
            cell_views(r@) == self@.raw_cells(kind, header_size as int, start as int, count as int),
    {
        let bytes = self.bytes;
        let usable = self.usable;
        let base: usize = if self.number == 1 { 100 } else { 0 };
        let mut cells: Vec<CellDetail> = Vec::new();
        let mut index: u16 = 0;
        while index < count
            invariant
                self@.wf(),
                bytes == self.bytes,
                usable == self.usable,
                base as int == self@.base(),
                base + header_size + 2 * count <= start <= usable,
                index <= count,
                cells@.len() == index,
                forall|k: int| 0 <= k < index ==> (#[trigger] cells@[k])@ == self@.raw_cell(kind, header_size as int, start as int, k),
            decreases count - index,
        {
            let pointer = base + header_size + (index as usize) * 2;
            let offset = word(bytes, pointer) as usize;
            let cell = if offset < start || offset >= usable {
                CellDetail {
                    identity: CellIdentity { page_number: self.number, index },
                    pointer: self.range(pointer, 2),
                    offset: offset as u32,
                    range: None,
                    rowid: None,
                    left_child: None,
                    left_child_pointer: None,
                    payload_size: None,
                    local_payload: None,
                    overflow_page: None,
                    overflow_pointer: None,
                    record: None,
                    diagnostic: Some(CellDiagnostic::InvalidCellPointer),
                }
            } else {
                self.cell(kind, index, pointer, offset)
            };
            cells.push(cell);
            index = index + 1;
        }
        assert(cell_views(cells@) =~= self@.raw_cells(kind, header_size as int, start as int, count as int));
        cells
    }

    /// Fragment regions and page findings after containment.
    fn finish_exec(&self, cells: &Vec<CellDetail>, blocks: &Vec<Freeblock>, chain_finding: Option<PageDiagnostic>, start: usize, declared: u8) -> (r: (Vec<Region>, Vec<PageDiagnostic>))
        requires
            self@.wf(),
            start <= self.usable,
        ensures
            r.0@ == self@.finish(cell_views(cells@), blocks@, chain_finding, start as int, declared as int).0,
            r.1@ == self@.finish(cell_views(cells@), blocks@, chain_finding, start as int, declared as int).1,
    {
        let ghost expected = self@.finish(cell_views(cells@), blocks@, chain_finding, start as int, declared as int);
        let mut regions: Vec<Region> = Vec::new();
        let mut diagnostics: Vec<PageDiagnostic> = Vec::new();
        let mut eligible = chain_finding.is_none();
        let mut i: usize = 0;
        while i < cells.len()
            invariant
                i <= cells@.len(),
                eligible ==> chain_finding is None,
                eligible ==> forall|k: int| 0 <= k < i ==> (#[trigger] cells@[k]).range is Some,
                !eligible ==> (chain_finding is Some || exists|k: int| 0 <= k < cells@.len() && (#[trigger] cells@[k]).range is None),
            decreases cells@.len() - i,
        {
            if cells[i].range.is_none() {
                eligible = false;
            }
            i = i + 1;
        }
        let mut j: usize = 0;
        while j < blocks.len()
            invariant
                j <= blocks@.len(),
                eligible ==> chain_finding is None,
                eligible ==> forall|k: int| 0 <= k < cells@.len() ==> (#[trigger] cells@[k]).range is Some,
                eligible ==> forall|k: int| 0 <= k < j ==> (#[trigger] blocks@[k]).range is Some,
                !eligible ==> (chain_finding is Some || (exists|k: int| 0 <= k < cells@.len() && (#[trigger] cells@[k]).range is None)
                    || (exists|k: int| 0 <= k < blocks@.len() && (#[trigger] blocks@[k]).range is None)),
            decreases blocks@.len() - j,
        {
            if blocks[j].range.is_none() {
                eligible = false;
            }
            j = j + 1;
        }
        if !eligible {
            if let Some(d) = chain_finding {
                diagnostics.push(d);
            }
            proof {
                let views = cell_views(cells@);
                if chain_finding is None {
                    if exists|k: int| 0 <= k < cells@.len() && (#[trigger] cells@[k]).range is None {
                        let k = choose|k: int| 0 <= k < cells@.len() && (#[trigger] cells@[k]).range is None;
                        assert(views[k].range is None);
                    }
                }
                assert(regions@ =~= expected.0);
                assert(diagnostics@ =~= expected.1);
            }
            return (regions, diagnostics);
        }
        assert(forall|k: int| 0 <= k < cells@.len() ==> (#[trigger] cell_views(cells@)[k]).range is Some);
        let (fragments, finding) = self.fragments(cells, blocks, start, declared);
        let mut k: usize = 0;
        while k < fragments.len()
            invariant
                self@.wf(),
                k <= fragments@.len(),
                forall|x: int| 0 <= x < fragments@.len() ==> (#[trigger] fragments@[x]).0 < fragments@[x].1 <= self.usable,
                regions@.len() == k,
                forall|x: int| 0 <= x < k ==> #[trigger] regions@[x] == (Region {
                    kind: RegionKind::Fragment,
                    range: spec_range(self.number, self.size, fragments@[x].0 as int, fragments@[x].1 - fragments@[x].0),
                }),
            decreases fragments@.len() - k,
        {
            let (a, b) = fragments[k];
            regions.push(Region { kind: RegionKind::Fragment, range: self.range(a, b - a) });
            k = k + 1;
        }
        if let Some(d) = finding {
            diagnostics.push(d);
        }
        assert(regions@ =~= expected.0);
        assert(diagnostics@ =~= expected.1);
        (regions, diagnostics)
    }

    /// Interprets this page's local structure.
    #[verifier::rlimit(60)]
    pub fn inspect(&self) -> (r: PageDetail)
        requires
            self@.wf(),
        ensures
            r@ == self@.spec_inspect(),
            ({
                let byte = self@.bytes[self@.base()];
                &&& !(byte == 13 || byte == 5 || byte == 10 || byte == 2) ==> r@.kind is None && r@.header is None
                &&& r@.kind == Some(Kind::TableLeaf) ==> byte == 13
                &&& r@.kind == Some(Kind::TableInterior) ==> byte == 5
                &&& r@.kind == Some(Kind::IndexLeaf) ==> byte == 10
                &&& r@.kind == Some(Kind::IndexInterior) ==> byte == 2
                &&& (r@.kind is Some <==> r@.header is Some)
                &&& r@.header matches Some(h) ==> {
                    &&& (h.rightmost_child is Some <==> (byte == 5 || byte == 2))
                    &&& h.range.length == if byte == 5 || byte == 2 { 12u32 } else { 8u32 }
                }
            }),
    {
        let bytes = self.bytes;
        let usable = self.usable;
        let size = self.size as usize;
        let base: usize = if self.number == 1 { 100 } else { 0 };
        let mut regions: Vec<Region> = Vec::new();
        if base != 0 {
            regions.push(Region { kind: RegionKind::DatabaseHeader, range: self.range(0, base) });
        }
        regions.push(Region { kind: RegionKind::UsableSpace, range: self.range(0, usable) });
        regions.push(Region { kind: RegionKind::OpaqueReserved, range: self.range(usable, size - usable) });
        assert(regions@ =~= self@.frame_regions());
        let kind = match bytes[base] {
            13 => Kind::TableLeaf,
            5 => Kind::TableInterior,
            10 => Kind::IndexLeaf,
            2 => Kind::IndexInterior,
            _ => {
                let r = PageDetail {
                    kind: None,
                    allocation_role: None,
                    header: None,
                    regions,
                    cells: Vec::new(),
                    freeblocks: Vec::new(),
                    diagnostics: Vec::new(),
                    coverage: LocalCoverage::Unsupported,
                };
                assert(r@.cells =~= seq![]);
                assert(r@.diagnostics =~= seq![]);
                assert(r@.freeblocks =~= seq![]);
                return r;
            },
        };
        let header_size: usize = if kind.interior() { 12 } else { 8 };
        let count = word(bytes, base + 3);
        let encoded = word(bytes, base + 5);
        let start: usize = if encoded == 0 { 65536 } else { encoded as usize };
        let pointer_end = base + header_size + (count as usize) * 2;
        let fragmented = bytes[base + 7];
        if pointer_end > start || start > usable || fragmented > 60 {
            let mut diagnostics = Vec::new();
            diagnostics.push(PageDiagnostic::InvalidBtreeHeader);
            let r = PageDetail {
                kind: None,
                allocation_role: None,
                header: None,
                regions,
                cells: Vec::new(),
                freeblocks: Vec::new(),
                diagnostics,
                coverage: LocalCoverage::Partial,
            };
            assert(r@.cells =~= seq![]);
            assert(r@.diagnostics =~= seq![PageDiagnostic::InvalidBtreeHeader]);
            assert(r@.freeblocks =~= seq![]);
            return r;
        }
        let header = BtreeHeader {
            range: self.range(base, header_size),
            first_freeblock: word(bytes, base + 1) as u32,
            cell_count: count,
            content_start: start as u32,
            fragmented_bytes: fragmented,
            rightmost_child: if kind.interior() { Some(dword(bytes, base + 8)) } else { None },
        };
        regions.push(Region { kind: RegionKind::BtreeHeader, range: self.range(base, header_size) });
        regions.push(Region { kind: RegionKind::CellPointerArray, range: self.range(base + header_size, (count as usize) * 2) });
        regions.push(Region { kind: RegionKind::Unallocated, range: self.range(pointer_end, start - pointer_end) });
        regions.push(Region { kind: RegionKind::CellContent, range: self.range(start, usable - start) });
        let ghost fixed = regions@;
        assert(fixed =~= self@.frame_regions() + self@.structure_regions(header_size as int, count as int, start as int));
        let mut cells = self.collect_cells(kind, header_size, start, count);
        let first = word(bytes, base + 1) as usize;
        let (mut blocks, chain_finding) = self.freeblocks(start, first);
        assert(blocks@ =~= self@.chain_blocks(start as int, first as int));
        contain_overlaps(&mut cells, &mut blocks, start, usable);
        let (mut extra, diagnostics) = self.finish_exec(&cells, &blocks, chain_finding, start, fragmented);
        let ghost extra_view = extra@;
        regions.append(&mut extra);
        let mut incomplete = false;
        let mut c: usize = 0;
        while c < cells.len()
            invariant
                c <= cells@.len(),
                incomplete == exists|x: int| 0 <= x < c && #[trigger] cell_incomplete(cells@[x]@),
            decreases cells@.len() - c,
        {
            let cell = &cells[c];
            let flagged = cell.diagnostic.is_some() || match &cell.record {
                Some(r) => match r.state {
                    RecordState::Complete => false,
                    _ => true,
                },
                None => false,
            };
            assert(flagged == cell_incomplete(cells@[c as int]@));
            if flagged {
                incomplete = true;
            }
            c = c + 1;
        }
        let coverage = if diagnostics.len() > 0 || incomplete { LocalCoverage::Partial } else { LocalCoverage::Complete };
        let r = PageDetail {
            kind: Some(kind),
            allocation_role: None,
            header: Some(header),
            regions,
            cells,
            freeblocks: blocks,
            diagnostics,
            coverage,
        };
        proof {
            let spec = self@.spec_inspect();
            assert(r@.cells =~= spec.cells);
            assert(r@.freeblocks =~= spec.freeblocks);
            assert(r@.regions =~= spec.regions);
            assert(cells_incomplete(r@.cells) == incomplete) by {
                if incomplete {
                    let x = choose|x: int| 0 <= x < cells@.len() && #[trigger] cell_incomplete(cells@[x]@);
                    assert(cell_incomplete(r@.cells[x]));
                }
            }
        }
        r
    }
}

} // verus!
