//! Database header decoding and the fixed page geometry derived from it.
use vstd::prelude::*;

use crate::bytes::{be16, be32, dword, word};

verus! {

/// Size of the database header at the start of page 1.
pub const SQLITE_HEADER_SIZE: usize = 100;

/// The smallest usable page area that SQLite accepts.
pub const MINIMUM_USABLE_SIZE: u32 = 480;

/// The largest page number that SQLite can address.
pub const MAXIMUM_PAGE_NUMBER: u64 = 4_294_967_294;

/// Why a main-file image cannot be inspected.
#[derive(Clone, Copy, Debug, PartialEq, Eq, Structural)]
pub enum InspectionError {
    /// The snapshot was invalidated because an accepted input changed.
    Invalidated,
    /// No published revision matches the request.
    RevisionUnavailable,
    /// The inspection is no longer scanning.
    NotScanning,
    /// The database header is shorter than 100 bytes.
    IncompleteHeader,
    /// The header does not begin with the format-3 magic string.
    InvalidMagic,
    /// The header declares a page size that SQLite cannot produce.
    InvalidPageSize(u32),
    /// The reserved-byte count leaves fewer than 480 usable bytes.
    InvalidReservedBytes(u8),
    /// The header declares a text encoding other than 1, 2 or 3.
    InvalidTextEncoding(u32),
    /// The file is shorter than one page.
    MissingFirstPage,
    /// The file ends inside a page.
    IncompletePage,
    /// A valid header declares a different page count than the file holds.
    PageCountMismatch { declared: u32, physical: u32 },
    /// The file holds more pages than SQLite can address.
    TooManyPages,
    /// The page inventory cannot be held in memory.
    PageInventoryTooLarge,
}

/// The database text encoding declared at header offset 56.
#[derive(Clone, Copy, Debug, PartialEq, Eq, Structural)]
pub enum TextEncoding {
    Utf8,
    Utf16Le,
    Utf16Be,
}

/// Geometry facts decoded from the database header and the file length.
#[derive(Clone, Copy, Debug, PartialEq, Eq, Structural)]
pub struct DatabaseGeometry {
    pub page_size: u32,
    pub usable_size: u32,
    pub reserved_bytes: u8,
    pub page_count: u32,
    pub text_encoding: TextEncoding,
    pub schema_format: u32,
    pub largest_root_page: u32,
    pub incremental_vacuum: u32,
    pub file_length: u64,
    pub declared_page_count: u32,
}

/// The magic string `"SQLite format 3\0"`.
pub open spec fn sqlite_magic() -> Seq<u8> {
    seq![
        0x53u8, 0x51, 0x4c, 0x69, 0x74, 0x65, 0x20, 0x66, 0x6f, 0x72, 0x6d, 0x61, 0x74, 0x20, 0x33,
        0x00,
    ]
}

/// Page sizes that SQLite can produce: the powers of two from 512 to 65536.
pub open spec fn valid_page_size(size: int) -> bool {
    size == 512 || size == 1024 || size == 2048 || size == 4096 || size == 8192 || size == 16384
        || size == 32768 || size == 65536
}

/// The page size stored at header offset 16, where the value 1 means 65536.
pub open spec fn declared_page_size(header: Seq<u8>) -> int {
    if be16(header, 16) == 1 {
        65536
    } else {
        be16(header, 16)
    }
}

/// Well-formed geometry: the facts that a successful header decode establishes.
pub open spec fn geometry_wf(g: DatabaseGeometry) -> bool {
    &&& valid_page_size(g.page_size as int)
    &&& g.usable_size == g.page_size - g.reserved_bytes
    &&& g.usable_size >= MINIMUM_USABLE_SIZE
    &&& g.page_count >= 1
    &&& g.file_length >= g.page_size
}

/// The page that holds the pending-byte lock range at offset 2^30.
pub open spec fn spec_lock_page(page_size: int) -> int {
    0x4000_0000int / page_size + 1
}

/// SQLite's `ptrmapPageno`: the pointer-map page responsible for `target`.
/// Maps recur every `usable / 5 + 1` pages starting at page 2, and the one map
/// that would fall on the lock-byte page moves to the page after it.
pub open spec fn spec_map_number(page_size: int, usable_size: int, target: int) -> Option<int> {
    if target < 2 {
        None
    } else {
        let stride = usable_size / 5 + 1;
        let nominal = (target - 2) / stride * stride + 2;
        if nominal == spec_lock_page(page_size) {
            Some(nominal + 1)
        } else {
            Some(nominal)
        }
    }
}

/// The page sizes SQLite can produce are the powers of two from 512 to
/// 65536, and the lock-byte page is the page that holds file offset 2^30:
/// it starts exactly there.
pub proof fn law_page_sizes_and_lock_page(size: int)
    ensures
        valid_page_size(size) <==> (size == 512 || size == 1024 || size == 2048 || size == 4096
            || size == 8192 || size == 16384 || size == 32768 || size == 65536),
        !valid_page_size(0) && !valid_page_size(1) && !valid_page_size(4095) && !valid_page_size(131072),
        valid_page_size(size) ==> (spec_lock_page(size) - 1) * size == 0x4000_0000,
        spec_lock_page(4096) == 262145,
        spec_lock_page(512) == 2097153,
        spec_lock_page(65536) == 16385,
{
    if valid_page_size(size) {
        if size == 512 {
            assert(0x4000_0000int / 512 == 2097152);
        } else if size == 1024 {
            assert(0x4000_0000int / 1024 == 1048576);
        } else if size == 2048 {
            assert(0x4000_0000int / 2048 == 524288);
        } else if size == 4096 {
            assert(0x4000_0000int / 4096 == 262144);
        } else if size == 8192 {
            assert(0x4000_0000int / 8192 == 131072);
        } else if size == 16384 {
            assert(0x4000_0000int / 16384 == 65536);
        } else if size == 32768 {
            assert(0x4000_0000int / 32768 == 32768);
        } else {
            assert(0x4000_0000int / 65536 == 16384);
        }
    }
    assert(0x4000_0000int / 4096 == 262144);
    assert(0x4000_0000int / 512 == 2097152);
    assert(0x4000_0000int / 65536 == 16384);
}

/// The first pointer-map page is page 2, and it describes every page after
/// it up to its stride of `usable / 5` pages; page 1 has no map.
pub proof fn law_first_pointer_map(page_size: int, usable_size: int, target: int)
    requires
        valid_page_size(page_size),
        480 <= usable_size <= page_size,
        2 <= target <= usable_size / 5 + 2,
    ensures
        spec_map_number(page_size, usable_size, 2) == Some(2int),
        spec_map_number(page_size, usable_size, target) == Some(2int),
        spec_map_number(page_size, usable_size, 1) is None,
{
    let stride = usable_size / 5 + 1;
    law_page_sizes_and_lock_page(page_size);
    assert(spec_lock_page(page_size) > 16384);
    assert(usable_size / 5 <= 13107);
    vstd::arithmetic::div_mod::lemma_basic_div(target - 2, stride);
    vstd::arithmetic::div_mod::lemma_basic_div(0, stride);
    assert((2 - 2) / stride == 0);
    assert((2 - 2) / stride * stride == 0);
    assert((target - 2) / stride * stride == 0);
}

/// Returns the lock-byte page of this geometry.
pub fn lock_page(geometry: &DatabaseGeometry) -> (r: u32)
    requires
        geometry.page_size > 0,
    ensures
        r == spec_lock_page(geometry.page_size as int),
{
    0x4000_0000 / geometry.page_size + 1
}

/// Returns the pointer-map page that records `target`, when `target >= 2`.
pub fn map_number(page_size: u32, usable_size: u32, target: u32) -> (r: Option<u32>)
    requires
        page_size > 0,
    ensures
        match spec_map_number(page_size as int, usable_size as int, target as int) {
            Some(n) => r == Some(n as u32) && 2 <= n <= u32::MAX,
            None => r is None,
        },
{
    if target < 2 {
        return None;
    }
    let stride = usable_size / 5 + 1;
    let offset = target - 2;
    let quotient = offset / stride;
    proof {
        assert(quotient * stride <= offset) by (nonlinear_arith)
            requires
                quotient == offset / stride,
                stride > 0,
        ;
    }
    let nominal = quotient * stride + 2;
    if nominal == 0x4000_0000 / page_size + 1 {
        Some(nominal + 1)
    } else {
        Some(nominal)
    }
}

/// The pointer-map page for `target` in an auto-vacuum database (largest root
/// page nonzero); `None` when the database keeps no pointer map.
pub open spec fn spec_map_for(geometry: DatabaseGeometry, target: int) -> Option<int> {
    if geometry.largest_root_page == 0 {
        None
    } else {
        spec_map_number(geometry.page_size as int, geometry.usable_size as int, target)
    }
}

/// Returns the pointer-map page for `target` under this geometry.
pub fn map_for(geometry: &DatabaseGeometry, target: u32) -> (r: Option<u32>)
    requires
        geometry.page_size > 0,
    ensures
        match spec_map_for(*geometry, target as int) {
            Some(n) => r == Some(n as u32) && 2 <= n <= u32::MAX,
            None => r is None,
        },
{
    if geometry.largest_root_page == 0 || target < 2 {
        return None;
    }
    map_number(geometry.page_size, geometry.usable_size, target)
}

/// Decodes the page size at header offset 16.
pub fn decode_page_size(header: &[u8]) -> (r: Result<u32, InspectionError>)
    requires
        header@.len() >= SQLITE_HEADER_SIZE,
    ensures
        valid_page_size(declared_page_size(header@)) ==> r == Ok::<u32, InspectionError>(
            declared_page_size(header@) as u32,
        ),
        !valid_page_size(declared_page_size(header@)) ==> r == Err::<u32, InspectionError>(
            InspectionError::InvalidPageSize(declared_page_size(header@) as u32),
        ),
{
    let encoded = word(header, 16);
    let page_size: u32 = if encoded == 1 {
        65_536
    } else {
        encoded as u32
    };
    if page_size == 512 || page_size == 1024 || page_size == 2048 || page_size == 4096
        || page_size == 8192 || page_size == 16384 || page_size == 32768 || page_size == 65536 {
        Ok(page_size)
    } else {
        Err(InspectionError::InvalidPageSize(page_size))
    }
}

/// The text encoding declared by a header code.
pub open spec fn spec_text_encoding(code: int) -> Option<TextEncoding> {
    if code == 1 {
        Some(TextEncoding::Utf8)
    } else if code == 2 {
        Some(TextEncoding::Utf16Le)
    } else if code == 3 {
        Some(TextEncoding::Utf16Be)
    } else {
        None
    }
}

/// SQLite's text-encoding codes: 1 is UTF-8, 2 UTF-16 little-endian, 3
/// UTF-16 big-endian, and no other code names an encoding.
pub proof fn law_text_encoding_codes(code: int)
    ensures
        spec_text_encoding(1) == Some(TextEncoding::Utf8),
        spec_text_encoding(2) == Some(TextEncoding::Utf16Le),
        spec_text_encoding(3) == Some(TextEncoding::Utf16Be),
        !(1 <= code <= 3) ==> spec_text_encoding(code) is None,
        spec_text_encoding(code) is Some ==> spec_text_encoding(code) != spec_text_encoding(code + 1),
{
}

/// Decodes the text encoding at header offset 56.
pub fn decode_text_encoding(header: &[u8]) -> (r: Result<TextEncoding, InspectionError>)
    requires
        header@.len() >= SQLITE_HEADER_SIZE,
    ensures
        match spec_text_encoding(be32(header@, 56)) {
            Some(e) => r == Ok::<TextEncoding, InspectionError>(e),
            None => r == Err::<TextEncoding, InspectionError>(
                InspectionError::InvalidTextEncoding(be32(header@, 56) as u32),
            ),
        },
        be32(header@, 56) == 1 ==> r == Ok::<TextEncoding, InspectionError>(TextEncoding::Utf8),
        be32(header@, 56) == 2 ==> r == Ok::<TextEncoding, InspectionError>(TextEncoding::Utf16Le),
        be32(header@, 56) == 3 ==> r == Ok::<TextEncoding, InspectionError>(TextEncoding::Utf16Be),
        r is Ok <==> (1 <= be32(header@, 56) <= 3),
{
    let encoded = dword(header, 56);
    if encoded == 1 {
        Ok(TextEncoding::Utf8)
    } else if encoded == 2 {
        Ok(TextEncoding::Utf16Le)
    } else if encoded == 3 {
        Ok(TextEncoding::Utf16Be)
    } else {
        Err(InspectionError::InvalidTextEncoding(encoded))
    }
}

/// Reads the big-endian 32-bit header field at `offset`.
pub fn decode_u32(header: &[u8], offset: usize) -> (r: u32)
    requires
        offset + 4 <= header@.len(),
    ensures
        r == be32(header@, offset as int),
{
    dword(header, offset)
}

/// Number of pages in a file of `file_length` bytes, counting a trailing partial page.
pub open spec fn physical_pages(file_length: int, page_size: int) -> int {
    if file_length % page_size == 0 {
        file_length / page_size
    } else {
        file_length / page_size + 1
    }
}

/// A trailing partial page is tolerated only when it is a pointer-map page of an
/// auto-vacuum database: its identity is fixed by geometry even when incomplete.
pub open spec fn partial_map_page(header: Seq<u8>, file_length: int, page_size: int, usable_size: int) -> bool {
    let count = physical_pages(file_length, page_size);
    &&& file_length % page_size != 0
    &&& be32(header, 52) != 0
    &&& count <= u32::MAX
    &&& spec_map_number(page_size, usable_size, count) == Some(count)
}

/// The page count that a header and file length establish, or why they do not.
pub open spec fn spec_page_count(header: Seq<u8>, file_length: int, page_size: int, usable_size: int) -> Result<u32, InspectionError> {
    let count = physical_pages(file_length, page_size);
    let partial = partial_map_page(header, file_length, page_size, usable_size);
    let declared = be32(header, 28);
    if file_length < page_size {
        Err(InspectionError::MissingFirstPage)
    } else if file_length % page_size != 0 && !partial {
        Err(InspectionError::IncompletePage)
    } else if count > MAXIMUM_PAGE_NUMBER {
        Err(InspectionError::TooManyPages)
    } else if declared != 0 && be32(header, 24) == be32(header, 92) && declared != count && !partial {
        Err(InspectionError::PageCountMismatch { declared: declared as u32, physical: count as u32 })
    } else {
        Ok(count as u32)
    }
}

/// Derives the physical page count and checks it against the header's
/// declaration, which is trusted only while the version-valid-for number
/// (offset 92) matches the change counter (offset 24).
pub fn decode_page_count(header: &[u8], file_length: u64, page_size: u32, usable_size: u32) -> (r: Result<u32, InspectionError>)
    requires
        header@.len() >= SQLITE_HEADER_SIZE,
        valid_page_size(page_size as int),
    ensures
        r == spec_page_count(header@, file_length as int, page_size as int, usable_size as int),
{
    let size = page_size as u64;
    if file_length < size {
        return Err(InspectionError::MissingFirstPage);
    }
    let whole = file_length / size;
    let incomplete = file_length % size != 0;
    proof {
        assert(whole * size <= file_length) by (nonlinear_arith)
            requires whole == file_length / size, size >= 512;
        assert(whole * 2 <= whole * size) by (nonlinear_arith)
            requires size >= 512;
    }
    let page_count: u64 = if incomplete { whole + 1 } else { whole };
    let partial_map = incomplete && decode_u32(header, 52) != 0 && page_count <= 0xffff_ffff
        && map_number(page_size, usable_size, page_count as u32) == Some(page_count as u32);
    if incomplete && !partial_map {
        return Err(InspectionError::IncompletePage);
    }
    if page_count > MAXIMUM_PAGE_NUMBER {
        return Err(InspectionError::TooManyPages);
    }
    let physical = page_count as u32;
    let declared = decode_u32(header, 28);
    let change_counter = decode_u32(header, 24);
    let version_valid_for = decode_u32(header, 92);
    if declared != 0 && change_counter == version_valid_for && declared != physical && !partial_map {
        return Err(InspectionError::PageCountMismatch { declared, physical });
    }
    Ok(physical)
}

/// Whether the header begins with the SQLite magic string.
pub open spec fn has_magic(header: Seq<u8>) -> bool {
    header.subrange(0, 16) == sqlite_magic()
}

/// The geometry that a header and file length describe, or the first reason
/// (in header order) why they describe none.
pub open spec fn spec_geometry(header: Seq<u8>, file_length: int) -> Result<DatabaseGeometry, InspectionError> {
    let page_size = declared_page_size(header);
    let reserved = header[20];
    let usable = page_size - reserved;
    if header.len() < SQLITE_HEADER_SIZE {
        Err(InspectionError::IncompleteHeader)
    } else if !has_magic(header) {
        Err(InspectionError::InvalidMagic)
    } else if !valid_page_size(page_size) {
        Err(InspectionError::InvalidPageSize(page_size as u32))
    } else if usable < MINIMUM_USABLE_SIZE {
        Err(InspectionError::InvalidReservedBytes(reserved))
    } else {
        match spec_text_encoding(be32(header, 56)) {
            None => Err(InspectionError::InvalidTextEncoding(be32(header, 56) as u32)),
            Some(encoding) => match spec_page_count(header, file_length, page_size, usable) {
                Err(e) => Err(e),
                Ok(count) => Ok(DatabaseGeometry {
                    page_size: page_size as u32,
                    usable_size: usable as u32,
                    reserved_bytes: reserved,
                    page_count: count,
                    text_encoding: encoding,
                    schema_format: be32(header, 44) as u32,
                    largest_root_page: be32(header, 52) as u32,
                    incremental_vacuum: be32(header, 64) as u32,
                    file_length: file_length as u64,
                    declared_page_count: be32(header, 28) as u32,
                }),
            },
        }
    }
}

/// Decodes the database geometry from the first bytes of the main file (at
/// least its 100-byte header) and the file's total length.
pub fn decode_geometry(header: &[u8], file_length: u64) -> (r: Result<DatabaseGeometry, InspectionError>)
    ensures
        r == spec_geometry(header@, file_length as int),
        r matches Ok(g) ==> geometry_wf(g),
        r matches Ok(g) ==> g.text_encoding == (if be32(header@, 56) == 1 {
            TextEncoding::Utf8
        } else if be32(header@, 56) == 2 {
            TextEncoding::Utf16Le
        } else {
            TextEncoding::Utf16Be
        }) && 1 <= be32(header@, 56) <= 3,
{
    if header.len() < SQLITE_HEADER_SIZE {
        return Err(InspectionError::IncompleteHeader);
    }
    let magic: [u8; 16] = [0x53, 0x51, 0x4c, 0x69, 0x74, 0x65, 0x20, 0x66, 0x6f, 0x72, 0x6d, 0x61, 0x74, 0x20, 0x33, 0x00];
    let mut index: usize = 0;
    while index < 16
        invariant
            index <= 16,
            header@.len() >= SQLITE_HEADER_SIZE,
            magic@ == sqlite_magic(),
            forall|i: int| 0 <= i < index ==> header@[i] == sqlite_magic()[i],
        decreases 16 - index,
    {
        if header[index] != magic[index] {
            proof {
                assert(header@.subrange(0, 16)[index as int] != sqlite_magic()[index as int]);
            }
            return Err(InspectionError::InvalidMagic);
        }
        index = index + 1;
    }
    assert(header@.subrange(0, 16) =~= sqlite_magic());
    let page_size = decode_page_size(header)?;
    let reserved_bytes = header[20];
    if page_size < reserved_bytes as u32 || page_size - (reserved_bytes as u32) < MINIMUM_USABLE_SIZE {
        return Err(InspectionError::InvalidReservedBytes(reserved_bytes));
    }
    let usable_size = page_size - reserved_bytes as u32;
    let text_encoding = decode_text_encoding(header)?;
    let page_count = decode_page_count(header, file_length, page_size, usable_size)?;
    Ok(DatabaseGeometry {
        page_size,
        usable_size,
        reserved_bytes,
        page_count,
        text_encoding,
        schema_format: decode_u32(header, 44),
        largest_root_page: decode_u32(header, 52),
        incremental_vacuum: decode_u32(header, 64),
        file_length,
        declared_page_count: decode_u32(header, 28),
    })
}

} // verus!
