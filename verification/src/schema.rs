//! Direct interpretation of `sqlite_schema` records. This projection reads
//! physical facts and never changes them.
use vstd::prelude::*;
use vstd::slice::slice_subrange;

use crate::btree::{CellDetail, CellIdentity, CellView, Kind, LocalCoverage};
use crate::inventory::PageEntity;
use crate::bytes::{varint, varint_at};
use crate::deep::{be_signed, decode_value, TypedValue, ValueView};
use crate::geometry::{geometry_wf, DatabaseGeometry, TextEncoding};
use crate::roles::{is_specific_btree, spec_evidence, PageClassification, PageRole};
use crate::text::{decode_text, spec_decode_text};
use crate::topology::control_kept;
use crate::topology::{
    spec_source_page, EntityIdentity, PageIdentity, PhysicalEvidence, Relationship, RelationshipClaim, RelationshipKind, Topology,
    TopologyCoverageReason, TopologyPhase, Traversal, TraversalKind, TraversalStopReason, TraversalView, ValidationRule, WorkControl,
};

verus! {

#[derive(Clone, Copy, Debug, PartialEq, Eq, Structural)]
pub enum SchemaState {
    Complete,
    Partial,
    Unavailable,
    DeclarationOnly,
}

#[derive(Clone, Copy, Debug, PartialEq, Eq, Structural)]
pub enum SchemaObjectType {
    Table,
    Index,
    View,
    Trigger,
}

/// Why a schema object, or the schema as a whole, is less than complete.
#[derive(Clone, Copy, Debug, PartialEq, Eq, Structural)]
pub enum SchemaDiagnostic {
    TruncatedVarint,
    RecordInvalid,
    TextInvalid,
    ObjectTypeInvalid,
    DeclarationUnavailable,
    PayloadUnavailable,
    DecodeBudget,
    AllocationFailed,
    ReadFailed,
    OverflowUnavailable,
    Cancelled,
    OperatorStop,
    WorkBudget,
    RootConflicting,
    VirtualRootInvalid,
    RootUnavailable,
    AttributionPartial,
    BtreeUnavailable,
    BtreePartial,
    StorageUnavailable,
}

impl SchemaDiagnostic {
    /// The stable code under which the diagnostic is reported.
    pub open spec fn spec_code(self) -> Seq<char> {
        match self {
            SchemaDiagnostic::TruncatedVarint => "truncated_varint"@,
            SchemaDiagnostic::RecordInvalid => "schema_record_invalid"@,
            SchemaDiagnostic::TextInvalid => "schema_text_invalid"@,
            SchemaDiagnostic::ObjectTypeInvalid => "schema_object_type_invalid"@,
            SchemaDiagnostic::DeclarationUnavailable => "schema_declaration_unavailable"@,
            SchemaDiagnostic::PayloadUnavailable => "schema_payload_unavailable"@,
            SchemaDiagnostic::DecodeBudget => "schema_decode_budget"@,
            SchemaDiagnostic::AllocationFailed => "schema_allocation_failed"@,
            SchemaDiagnostic::ReadFailed => "schema_read_failed"@,
            SchemaDiagnostic::OverflowUnavailable => "schema_overflow_unavailable"@,
            SchemaDiagnostic::Cancelled => "schema_cancelled"@,
            SchemaDiagnostic::OperatorStop => "schema_operator_stop"@,
            SchemaDiagnostic::WorkBudget => "schema_work_budget"@,
            SchemaDiagnostic::RootConflicting => "schema_root_conflicting"@,
            SchemaDiagnostic::VirtualRootInvalid => "schema_virtual_root_invalid"@,
            SchemaDiagnostic::RootUnavailable => "schema_root_unavailable"@,
            SchemaDiagnostic::AttributionPartial => "schema_attribution_partial"@,
            SchemaDiagnostic::BtreeUnavailable => "schema_btree_unavailable"@,
            SchemaDiagnostic::BtreePartial => "schema_btree_partial"@,
            SchemaDiagnostic::StorageUnavailable => "private_storage_unavailable"@,
        }
    }

    pub fn code(self) -> (r: &'static str)
        ensures
            r@ == self.spec_code(),
    {
        match self {
            SchemaDiagnostic::TruncatedVarint => "truncated_varint",
            SchemaDiagnostic::RecordInvalid => "schema_record_invalid",
            SchemaDiagnostic::TextInvalid => "schema_text_invalid",
            SchemaDiagnostic::ObjectTypeInvalid => "schema_object_type_invalid",
            SchemaDiagnostic::DeclarationUnavailable => "schema_declaration_unavailable",
            SchemaDiagnostic::PayloadUnavailable => "schema_payload_unavailable",
            SchemaDiagnostic::DecodeBudget => "schema_decode_budget",
            SchemaDiagnostic::AllocationFailed => "schema_allocation_failed",
            SchemaDiagnostic::ReadFailed => "schema_read_failed",
            SchemaDiagnostic::OverflowUnavailable => "schema_overflow_unavailable",
            SchemaDiagnostic::Cancelled => "schema_cancelled",
            SchemaDiagnostic::OperatorStop => "schema_operator_stop",
            SchemaDiagnostic::WorkBudget => "schema_work_budget",
            SchemaDiagnostic::RootConflicting => "schema_root_conflicting",
            SchemaDiagnostic::VirtualRootInvalid => "schema_virtual_root_invalid",
            SchemaDiagnostic::RootUnavailable => "schema_root_unavailable",
            SchemaDiagnostic::AttributionPartial => "schema_attribution_partial",
            SchemaDiagnostic::BtreeUnavailable => "schema_btree_unavailable",
            SchemaDiagnostic::BtreePartial => "schema_btree_partial",
            SchemaDiagnostic::StorageUnavailable => "private_storage_unavailable",
        }
    }
}

/// The five columns of a `sqlite_schema` row.
pub struct SchemaRecord {
    pub kind: SchemaObjectType,
    pub name: String,
    pub table: String,
    pub root: Option<i64>,
    pub sql: Option<String>,
}

/// A schema row as values.
pub struct SchemaRecordView {
    pub kind: SchemaObjectType,
    pub name: Seq<char>,
    pub table: Seq<char>,
    pub root: Option<i64>,
    pub sql: Option<Seq<char>>,
}

impl View for SchemaRecord {
    type V = SchemaRecordView;

    open spec fn view(&self) -> SchemaRecordView {
        SchemaRecordView {
            kind: self.kind,
            name: self.name@,
            table: self.table@,
            root: self.root,
            sql: match self.sql {
                Some(s) => Some(s@),
                None => None,
            },
        }
    }
}

/// The byte length of a schema column of serial type `serial`: NULL, the
/// integer types and text. Reals, blobs and the reserved types are not
/// schema columns.
pub open spec fn schema_length(serial: u64) -> Option<u64> {
    if serial == 0 || serial == 8 || serial == 9 {
        Some(0)
    } else if 1 <= serial <= 4 {
        Some(serial)
    } else if serial == 5 {
        Some(6)
    } else if serial == 6 {
        Some(8)
    } else if serial >= 13 && serial % 2 == 1 {
        Some(((serial - 13) / 2) as u64)
    } else {
        None
    }
}

fn column_length(serial: u64) -> (r: Option<u64>)
    ensures
        r == schema_length(serial),
{
    if serial == 0 || serial == 8 || serial == 9 {
        Some(0)
    } else if 1 <= serial && serial <= 4 {
        Some(serial)
    } else if serial == 5 {
        Some(6)
    } else if serial == 6 {
        Some(8)
    } else if serial >= 13 && serial % 2 == 1 {
        Some((serial - 13) / 2)
    } else {
        None
    }
}

/// The serial types of the columns from `k` on, read from the record header.
pub open spec fn header_serials(header: Seq<u8>, cursor: int, k: nat) -> Option<(Seq<u64>, int)>
    decreases 5 - k,
{
    if k >= 5 {
        Some((seq![], cursor))
    } else {
        match varint_at(header, cursor) {
            None => None,
            Some((serial, next)) => match header_serials(header, next, k + 1) {
                None => None,
                Some((rest, end)) => Some((seq![serial] + rest, end)),
            },
        }
    }
}

/// The five serial types of a schema record, or why its header is unusable.
pub open spec fn schema_serials(bytes: Seq<u8>) -> Result<Seq<u64>, SchemaDiagnostic> {
    match varint_at(bytes, 0) {
        None => Err(SchemaDiagnostic::TruncatedVarint),
        Some((size, first)) => if size < first || size > bytes.len() {
            Err(SchemaDiagnostic::RecordInvalid)
        } else {
            match header_serials(bytes.subrange(0, size as int), first, 0) {
                None => Err(SchemaDiagnostic::TruncatedVarint),
                Some((serials, end)) => if end != size {
                    Err(SchemaDiagnostic::RecordInvalid)
                } else {
                    Ok(serials)
                },
            }
        },
    }
}

/// The columns from `k` on as (serial type, start, end), laid out from `cursor`
/// to the end of the record.
pub open spec fn schema_columns(bytes: Seq<u8>, serials: Seq<u64>, k: nat, cursor: int, schema_format: u32) -> Result<Seq<(u64, int, int)>, SchemaDiagnostic>
    decreases 5 - k,
{
    if k >= 5 {
        if cursor != bytes.len() {
            Err(SchemaDiagnostic::RecordInvalid)
        } else {
            Ok(seq![])
        }
    } else {
        let serial = serials[k as int];
        match schema_length(serial) {
            None => Err(SchemaDiagnostic::RecordInvalid),
            Some(length) => if (serial == 8 || serial == 9) && schema_format < 4 {
                Err(SchemaDiagnostic::RecordInvalid)
            } else if cursor + length > bytes.len() {
                Err(SchemaDiagnostic::RecordInvalid)
            } else {
                match schema_columns(bytes, serials, k + 1, cursor + length, schema_format) {
                    Err(e) => Err(e),
                    Ok(rest) => Ok(seq![(serial, cursor, cursor + length)] + rest),
                }
            },
        }
    }
}

/// A text column: it must be typed as text, decode in the database encoding,
/// and hold no NUL character.
pub open spec fn schema_text(bytes: Seq<u8>, column: (u64, int, int), encoding: TextEncoding) -> Result<Seq<char>, SchemaDiagnostic> {
    if column.0 < 13 || column.0 % 2 == 0 {
        Err(SchemaDiagnostic::RecordInvalid)
    } else {
        match spec_decode_text(bytes.subrange(column.1, column.2), encoding) {
            None => Err(SchemaDiagnostic::TextInvalid),
            Some(text) => if text.contains('\0') {
                Err(SchemaDiagnostic::TextInvalid)
            } else {
                Ok(text)
            },
        }
    }
}

pub open spec fn spec_object_type(text: Seq<char>) -> Option<SchemaObjectType> {
    if text == seq!['t', 'a', 'b', 'l', 'e'] {
        Some(SchemaObjectType::Table)
    } else if text == seq!['i', 'n', 'd', 'e', 'x'] {
        Some(SchemaObjectType::Index)
    } else if text == seq!['v', 'i', 'e', 'w'] {
        Some(SchemaObjectType::View)
    } else if text == seq!['t', 'r', 'i', 'g', 'g', 'e', 'r'] {
        Some(SchemaObjectType::Trigger)
    } else {
        None
    }
}

/// The root-page column: NULL, a constant, or a big-endian signed integer.
pub open spec fn schema_root(bytes: Seq<u8>, column: (u64, int, int)) -> Result<Option<i64>, SchemaDiagnostic> {
    if column.0 == 0 {
        Ok(None)
    } else if column.0 == 8 {
        Ok(Some(0))
    } else if column.0 == 9 {
        Ok(Some(1))
    } else if 1 <= column.0 <= 6 {
        Ok(Some(be_signed(bytes.subrange(column.1, column.2)) as i64))
    } else {
        Err(SchemaDiagnostic::RecordInvalid)
    }
}

/// A schema record read from its columns, checked in column order.
pub open spec fn record_from(bytes: Seq<u8>, c: Seq<(u64, int, int)>, encoding: TextEncoding) -> Result<SchemaRecordView, SchemaDiagnostic> {
    match schema_text(bytes, c[0], encoding) {
        Err(e) => Err(e),
        Ok(kind_text) => match spec_object_type(kind_text) {
            None => Err(SchemaDiagnostic::ObjectTypeInvalid),
            Some(kind) => match schema_text(bytes, c[1], encoding) {
                Err(e) => Err(e),
                Ok(name) => match schema_text(bytes, c[2], encoding) {
                    Err(e) => Err(e),
                    Ok(table) => if name.len() == 0 || table.len() == 0 {
                        Err(SchemaDiagnostic::RecordInvalid)
                    } else {
                        match schema_root(bytes, c[3]) {
                            Err(e) => Err(e),
                            Ok(root) => {
                                let sql = if c[4].0 == 0 {
                                    Ok(None::<Seq<char>>)
                                } else {
                                    match schema_text(bytes, c[4], encoding) {
                                        Err(e) => Err(e),
                                        Ok(t) => Ok(Some(t)),
                                    }
                                };
                                match sql {
                                    Err(e) => Err(e),
                                    Ok(sql) => if sql is None && kind != SchemaObjectType::Index {
                                        Err(SchemaDiagnostic::DeclarationUnavailable)
                                    } else {
                                        Ok(SchemaRecordView { kind, name, table, root, sql })
                                    },
                                }
                            },
                        }
                    },
                },
            },
        },
    }
}

/// A `sqlite_schema` record: type, name, table name, root page and SQL.
pub open spec fn spec_record(bytes: Seq<u8>, geometry: DatabaseGeometry) -> Result<SchemaRecordView, SchemaDiagnostic> {
    match schema_serials(bytes) {
        Err(e) => Err(e),
        Ok(serials) => match schema_columns(bytes, serials, 0, first_column(bytes), geometry.schema_format) {
            Err(e) => Err(e),
            Ok(columns) => record_from(bytes, columns, geometry.text_encoding),
        },
    }
}

/// Where the first column begins: right after the record header.
pub open spec fn first_column(bytes: Seq<u8>) -> int {
    match varint_at(bytes, 0) {
        Some((size, _)) => size as int,
        None => 0,
    }
}

pub open spec fn prepend_serials(prefix: Seq<u64>, r: Option<(Seq<u64>, int)>) -> Option<(Seq<u64>, int)> {
    match r {
        Some((rest, end)) => Some((prefix + rest, end)),
        None => None,
    }
}

pub open spec fn prepend_columns(prefix: Seq<(u64, int, int)>, r: Result<Seq<(u64, int, int)>, SchemaDiagnostic>) -> Result<Seq<(u64, int, int)>, SchemaDiagnostic> {
    match r {
        Ok(rest) => Ok(prefix + rest),
        Err(e) => Err(e),
    }
}

proof fn lemma_serials_length(header: Seq<u8>, cursor: int, k: nat)
    requires
        k <= 5,
    ensures
        header_serials(header, cursor, k) matches Some((serials, _)) ==> serials.len() == 5 - k,
    decreases 5 - k,
{
    if k < 5 {
        if let Some((serial, next)) = varint_at(header, cursor) {
            lemma_serials_length(header, next, k + 1);
        }
    }
}

/// Whether `text` holds a NUL character.
fn has_nul(text: &String) -> (r: bool)
    ensures
        r == text@.contains('\0'),
{
    let s = text.as_str();
    let n = s.unicode_len();
    let mut i: usize = 0;
    while i < n
        invariant
            n == s@.len(),
            s@ == text@,
            i <= n,
            forall|j: int| 0 <= j < i ==> s@[j] != '\0',
        decreases n - i,
    {
        if s.get_char(i) == '\0' {
            return true;
        }
        i = i + 1;
    }
    false
}

/// Decodes text column `k`.
fn text_column(bytes: &[u8], column: (u64, usize, usize), encoding: TextEncoding) -> (r: Result<String, SchemaDiagnostic>)
    requires
        column.1 <= column.2 <= bytes@.len(),
    ensures
        match schema_text(bytes@, (column.0, column.1 as int, column.2 as int), encoding) {
            Ok(t) => r matches Ok(s) && s@ == t,
            Err(e) => r == Err::<String, SchemaDiagnostic>(e),
        },
{
    if column.0 < 13 || column.0 % 2 == 0 {
        return Err(SchemaDiagnostic::RecordInvalid);
    }
    let raw = slice_subrange(bytes, column.1, column.2);
    match decode_text(raw, encoding) {
        Err(_) => Err(SchemaDiagnostic::TextInvalid),
        Ok(text) => if has_nul(&text) {
            Err(SchemaDiagnostic::TextInvalid)
        } else {
            Ok(text)
        },
    }
}

fn object_type(text: &String) -> (r: Option<SchemaObjectType>)
    ensures
        r == spec_object_type(text@),
{
    let table = String::from_str("table");
    let index = String::from_str("index");
    let view = String::from_str("view");
    let trigger = String::from_str("trigger");
    proof {
        reveal_strlit("table");
        reveal_strlit("index");
        reveal_strlit("view");
        reveal_strlit("trigger");
        assert(table@ =~= seq!['t', 'a', 'b', 'l', 'e']);
        assert(index@ =~= seq!['i', 'n', 'd', 'e', 'x']);
        assert(view@ =~= seq!['v', 'i', 'e', 'w']);
        assert(trigger@ =~= seq!['t', 'r', 'i', 'g', 'g', 'e', 'r']);
    }
    if *text == table {
        Some(SchemaObjectType::Table)
    } else if *text == index {
        Some(SchemaObjectType::Index)
    } else if *text == view {
        Some(SchemaObjectType::View)
    } else if *text == trigger {
        Some(SchemaObjectType::Trigger)
    } else {
        None
    }
}

/// The record header: the five serial types and where the columns begin.
fn record_serials(bytes: &[u8]) -> (r: Result<(Vec<u64>, usize), SchemaDiagnostic>)
    ensures
        match schema_serials(bytes@) {
            Ok(serials) => r matches Ok((v, first)) && v@ == serials && v@.len() == 5 && first == first_column(bytes@) && first <= bytes@.len(),
            Err(e) => r == Err::<(Vec<u64>, usize), SchemaDiagnostic>(e),
        },
{
    let mut cursor: usize = 0;
    let size = match varint(bytes, &mut cursor) {
        Ok(v) => v,
        Err(_) => return Err(SchemaDiagnostic::TruncatedVarint),
    };
    if size > bytes.len() as u64 || (size as usize) < cursor {
        return Err(SchemaDiagnostic::RecordInvalid);
    }
    let end = size as usize;
    let header = slice_subrange(bytes, 0, end);
    let ghost first = cursor as int;
    let mut serials: Vec<u64> = Vec::new();
    let mut k: usize = 0;
    while k < 5
        invariant
            k <= 5,
            serials@.len() == k,
            header@ == bytes@.subrange(0, end as int),
            varint_at(bytes@, 0) == Some((end as u64, first)),
            first <= end <= bytes@.len(),
            header_serials(header@, first, 0) == prepend_serials(serials@, header_serials(header@, cursor as int, k as nat)),
        decreases 5 - k,
    {
        let ghost before = cursor as int;
        match varint(header, &mut cursor) {
            Ok(serial) => {
                assert(serials@.push(serial) =~= serials@ + seq![serial]);
                proof {
                    let rest = header_serials(header@, cursor as int, (k + 1) as nat);
                    if let Some((tail, e)) = rest {
                        assert(serials@ + (seq![serial] + tail) =~= serials@.push(serial) + tail);
                    }
                }
                serials.push(serial);
            },
            Err(_) => {
                assert(header_serials(header@, before, k as nat) is None);
                return Err(SchemaDiagnostic::TruncatedVarint);
            },
        }
        k = k + 1;
    }
    assert(serials@ + seq![] =~= serials@);
    proof { lemma_serials_length(header@, first, 0); }
    if cursor != end {
        return Err(SchemaDiagnostic::RecordInvalid);
    }
    Ok((serials, end))
}

/// Reads a `sqlite_schema` record: type, name, table name, root page and SQL.
pub fn record(bytes: &[u8], geometry: &DatabaseGeometry) -> (r: Result<SchemaRecord, SchemaDiagnostic>)
    ensures
        match spec_record(bytes@, *geometry) {
            Ok(v) => r matches Ok(rec) && rec@ == v,
            Err(e) => r matches Err(f) && f == e,
        },
{
    let (serials, first) = match record_serials(bytes) {
        Ok(h) => h,
        Err(e) => return Err(e),
    };
    let ghost all = schema_columns(bytes@, serials@, 0, first as int, geometry.schema_format);
    let mut columns: Vec<(u64, usize, usize)> = Vec::new();
    let mut cursor: usize = first;
    let mut k: usize = 0;
    while k < 5
        invariant
            k <= 5,
            serials@.len() == 5,
            schema_serials(bytes@) == Ok::<Seq<u64>, SchemaDiagnostic>(serials@),
            first == first_column(bytes@),
            all == schema_columns(bytes@, serials@, 0, first_column(bytes@), geometry.schema_format),
            columns@.len() == k,
            cursor <= bytes@.len(),
            forall|j: int| 0 <= j < k ==> (#[trigger] columns@[j]).1 <= columns@[j].2 <= bytes@.len(),
            forall|j: int| 0 <= j < k ==> (#[trigger] columns@[j]).0 == serials@[j] && schema_length(columns@[j].0) == Some((columns@[j].2 - columns@[j].1) as u64),
            all == prepend_columns(columns@.map_values(|c: (u64, usize, usize)| (c.0, c.1 as int, c.2 as int)), schema_columns(bytes@, serials@, k as nat, cursor as int, geometry.schema_format)),
        decreases 5 - k,
    {
        let serial = serials[k];
        let length = match column_length(serial) {
            Some(l) => l,
            None => {
                assert(schema_columns(bytes@, serials@, k as nat, cursor as int, geometry.schema_format) is Err);
                return Err(SchemaDiagnostic::RecordInvalid);
            },
        };
        if (serial == 8 || serial == 9) && geometry.schema_format < 4 {
            assert(schema_columns(bytes@, serials@, k as nat, cursor as int, geometry.schema_format) is Err);
            return Err(SchemaDiagnostic::RecordInvalid);
        }
        if length > (bytes.len() - cursor) as u64 {
            assert(schema_columns(bytes@, serials@, k as nat, cursor as int, geometry.schema_format) is Err);
            return Err(SchemaDiagnostic::RecordInvalid);
        }
        let end = cursor + length as usize;
        let ghost old_columns = columns@;
        columns.push((serial, cursor, end));
        proof {
            let f = |c: (u64, usize, usize)| (c.0, c.1 as int, c.2 as int);
            assert(columns@.map_values(f) =~= old_columns.map_values(f).push((serial, cursor as int, end as int)));
            let rest = schema_columns(bytes@, serials@, (k + 1) as nat, end as int, geometry.schema_format);
            if let Ok(tail) = rest {
                assert(old_columns.map_values(f) + (seq![(serial, cursor as int, end as int)] + tail) =~= columns@.map_values(f) + tail);
            }
        }
        cursor = end;
        k = k + 1;
    }
    if cursor != bytes.len() {
        return Err(SchemaDiagnostic::RecordInvalid);
    }
    let ghost c = columns@.map_values(|c: (u64, usize, usize)| (c.0, c.1 as int, c.2 as int));
    assert(c + seq![] =~= c);
    assert(all == Ok::<Seq<(u64, int, int)>, SchemaDiagnostic>(c));
    let kind_text = match text_column(bytes, columns[0], geometry.text_encoding) {
        Ok(t) => t,
        Err(e) => return Err(e),
    };
    let kind = match object_type(&kind_text) {
        Some(k) => k,
        None => return Err(SchemaDiagnostic::ObjectTypeInvalid),
    };
    let name = match text_column(bytes, columns[1], geometry.text_encoding) {
        Ok(t) => t,
        Err(e) => return Err(e),
    };
    let table = match text_column(bytes, columns[2], geometry.text_encoding) {
        Ok(t) => t,
        Err(e) => return Err(e),
    };
    if name.as_str().unicode_len() == 0 || table.as_str().unicode_len() == 0 {
        return Err(SchemaDiagnostic::RecordInvalid);
    }
    let (root_serial, root_start, root_end) = columns[3];
    let root = if root_serial == 0 {
        None
    } else if root_serial == 8 {
        Some(0i64)
    } else if root_serial == 9 {
        Some(1i64)
    } else if 1 <= root_serial && root_serial <= 6 {
        match decode_value(root_serial, slice_subrange(bytes, root_start, root_end), geometry.text_encoding) {
            Ok(TypedValue::Integer { value }) => Some(value),
            _ => return Err(SchemaDiagnostic::RecordInvalid),
        }
    } else {
        return Err(SchemaDiagnostic::RecordInvalid);
    };
    let sql = if columns[4].0 == 0 {
        None
    } else {
        match text_column(bytes, columns[4], geometry.text_encoding) {
            Ok(t) => Some(t),
            Err(e) => return Err(e),
        }
    };
    if sql.is_none() && kind != SchemaObjectType::Index {
        return Err(SchemaDiagnostic::DeclarationUnavailable);
    }
    Ok(SchemaRecord { kind, name, table, root, sql })
}

/// Checks for a stop before one more unit of schema work, and counts the unit
/// when work goes on.
pub fn check_stop(control: &mut WorkControl) -> (r: Result<(), SchemaDiagnostic>)
    ensures
        old(control).stop != 0 ==> final(control).stop == old(control).stop,
        control_kept(*old(control), *final(control)),
        same_phase(*old(control), *final(control)),
        r is Ok <==> !final(control).is_stopped(),
        final(control).spec_traversal_reason() == Some(TraversalStopReason::OperatorStop) ==> r == Err::<(), SchemaDiagnostic>(SchemaDiagnostic::OperatorStop),
        final(control).spec_traversal_reason() == Some(TraversalStopReason::Cancelled) ==> r == Err::<(), SchemaDiagnostic>(SchemaDiagnostic::Cancelled),
{
    if control.stopped() {
        match control.traversal_reason() {
            Some(TraversalStopReason::OperatorStop) => Err(SchemaDiagnostic::OperatorStop),
            Some(TraversalStopReason::Budget) => Err(SchemaDiagnostic::WorkBudget),
            _ => Err(SchemaDiagnostic::Cancelled),
        }
    } else {
        control.advance(TopologyPhase::SchemaInspection);
        Ok(())
    }
}

/// `b` is in the phase `a` was in, equally finished.
pub open spec fn same_phase(a: WorkControl, b: WorkControl) -> bool {
    a.phase == b.phase && a.phase_complete == b.phase_complete
}

/// Whether `page` reconciled as an overflow page.
pub open spec fn reconciled_overflow(classes: Seq<PageClassification>, page: PageIdentity) -> bool {
    &&& 1 <= page.page_number <= classes.len()
    &&& classes[page.page_number - 1].reconciled
    &&& classes[page.page_number - 1].role == PageRole::Overflow
}

/// Whether a validated overflow relationship leads from `source` to `page`.
pub open spec fn overflow_linked(links: Seq<Relationship>, source: EntityIdentity, page: PageIdentity) -> bool {
    exists|i: int|
        0 <= i < links.len() && (#[trigger] links[i]).kind == RelationshipKind::Overflow && links[i].source == source
            && links[i].target == page
}

/// One step of the overflow walk: the extent read from overflow page `page`,
/// reached from `source`, with `cursor` of `size` payload bytes in hand.
pub open spec fn overflow_step(
    image_len: int,
    geometry: DatabaseGeometry,
    size: int,
    page: PageIdentity,
    cursor: int,
    source: EntityIdentity,
    classes: Seq<PageClassification>,
    links: Seq<Relationship>,
) -> Result<PhysicalEvidence, SchemaDiagnostic> {
    if !reconciled_overflow(classes, page) || !overflow_linked(links, source, page) {
        Err(SchemaDiagnostic::OverflowUnavailable)
    } else {
        let length = if size - cursor < geometry.usable_size - 4 { size - cursor } else { geometry.usable_size - 4 };
        if length <= 0 {
            Err(SchemaDiagnostic::OverflowUnavailable)
        } else {
            let extent = spec_evidence(geometry, page.page_number, 4, length as u32, ValidationRule::SchemaOverflowPayload);
            if extent.range.file_offset + length > image_len {
                Err(SchemaDiagnostic::ReadFailed)
            } else {
                Ok(extent)
            }
        }
    }
}

/// The overflow extents read for a payload of `size` bytes along the pages of
/// `prefix` from position `k` on, with `cursor` bytes already in hand, and the
/// failure that ends the walk, if any.
pub open spec fn overflow_extents(
    image_len: int,
    geometry: DatabaseGeometry,
    size: int,
    prefix: Seq<PageIdentity>,
    k: int,
    cursor: int,
    source: EntityIdentity,
    classes: Seq<PageClassification>,
    links: Seq<Relationship>,
) -> (Option<SchemaDiagnostic>, Seq<PhysicalEvidence>)
    decreases prefix.len() - k,
{
    if k < 0 || k >= prefix.len() {
        (if cursor == size { None } else { Some(SchemaDiagnostic::OverflowUnavailable) }, seq![])
    } else {
        match overflow_step(image_len, geometry, size, prefix[k], cursor, source, classes, links) {
            Err(e) => (Some(e), seq![]),
            Ok(extent) => {
                let rest = overflow_extents(
                    image_len,
                    geometry,
                    size,
                    prefix,
                    k + 1,
                    cursor + extent.range.length,
                    EntityIdentity::Page { page_number: prefix[k].page_number },
                    classes,
                    links,
                );
                (rest.0, seq![extent] + rest.1)
            },
        }
    }
}

/// The image bytes that `extents` cover, in order.
pub open spec fn extent_bytes(image: Seq<u8>, extents: Seq<PhysicalEvidence>) -> Seq<u8>
    decreases extents.len(),
{
    if extents.len() == 0 {
        seq![]
    } else {
        let last = extents.last();
        extent_bytes(image, extents.drop_last()) + image.subrange(
            last.range.file_offset as int,
            last.range.file_offset + last.range.length,
        )
    }
}

/// The index of the first overflow traversal from `origin`, from position `i` on.
pub open spec fn first_overflow(traversals: Seq<Traversal>, origin: EntityIdentity, i: int) -> Option<int>
    decreases traversals.len() - i,
{
    if i < 0 || i >= traversals.len() {
        None
    } else if traversals[i].kind == TraversalKind::Overflow && traversals[i].origin == origin {
        Some(i)
    } else {
        first_overflow(traversals, origin, i + 1)
    }
}

proof fn lemma_first_overflow_bounds(traversals: Seq<Traversal>, origin: EntityIdentity, i: int)
    ensures
        first_overflow(traversals, origin, i) matches Some(t) ==> i <= t < traversals.len()
            && traversals[t].kind == TraversalKind::Overflow && traversals[t].origin == origin,
    decreases traversals.len() - i,
{
    if 0 <= i < traversals.len() {
        lemma_first_overflow_bounds(traversals, origin, i + 1);
    }
}

/// What reading a schema cell's payload gives: the bytes or the failure, the
/// overflow extents read, and the decode allowance left.
pub struct PayloadOutcome {
    pub result: Result<Seq<u8>, SchemaDiagnostic>,
    pub extents: Seq<PhysicalEvidence>,
    pub remaining: u64,
}

/// Reading a schema cell's whole payload: the local part from the cell, the
/// rest along the cell's complete overflow traversal, through pages that
/// reconciled as overflow pages and links that validated.
pub open spec fn spec_payload(
    image: Seq<u8>,
    geometry: DatabaseGeometry,
    cell: CellView,
    traversals: Seq<Traversal>,
    classes: Seq<PageClassification>,
    links: Seq<Relationship>,
    remaining: u64,
) -> PayloadOutcome {
    let fail = |e: SchemaDiagnostic, left: u64| PayloadOutcome { result: Err(e), extents: seq![], remaining: left };
    if cell.diagnostic is Some || !(1 <= geometry.schema_format <= 4) {
        fail(SchemaDiagnostic::RecordInvalid, remaining)
    } else {
        match (cell.local_payload, cell.payload_size) {
            (Some(range), Some(size)) => if size > remaining {
                fail(SchemaDiagnostic::DecodeBudget, remaining)
            } else {
                let left = (remaining - size) as u64;
                let local = range.length as int;
                if size > usize::MAX {
                    fail(SchemaDiagnostic::AllocationFailed, left)
                } else if local > size {
                    fail(SchemaDiagnostic::RecordInvalid, left)
                } else if range.file_offset + local > image.len() {
                    fail(SchemaDiagnostic::ReadFailed, left)
                } else {
                    let local_bytes = image.subrange(range.file_offset as int, range.file_offset + local);
                    if local == size {
                        PayloadOutcome { result: Ok(local_bytes), extents: seq![], remaining: left }
                    } else {
                        let origin = EntityIdentity::Cell { page_number: cell.identity.page_number, cell_index: cell.identity.index };
                        match first_overflow(traversals, origin, 0) {
                            None => fail(SchemaDiagnostic::OverflowUnavailable, left),
                            Some(t) => if traversals[t].stop is Some {
                                fail(SchemaDiagnostic::OverflowUnavailable, left)
                            } else {
                                let walk = overflow_extents(
                                    image.len() as int,
                                    geometry,
                                    size as int,
                                    traversals[t].validated_prefix@,
                                    0,
                                    local,
                                    origin,
                                    classes,
                                    links,
                                );
                                PayloadOutcome {
                                    result: match walk.0 {
                                        Some(e) => Err(e),
                                        None => Ok(local_bytes + extent_bytes(image, walk.1)),
                                    },
                                    extents: walk.1,
                                    remaining: left,
                                }
                            },
                        }
                    }
                }
            },
            _ => fail(SchemaDiagnostic::PayloadUnavailable, remaining),
        }
    }
}

/// `after` is `before` followed by an initial part of `all`.
pub open spec fn grew_by_prefix<T>(before: Seq<T>, after: Seq<T>, all: Seq<T>) -> bool {
    &&& before.len() <= after.len()
    &&& after.subrange(0, before.len() as int) == before
    &&& after.subrange(before.len() as int, after.len() as int).is_prefix_of(all)
}

pub open spec fn walk_of(image: Seq<u8>, geometry: DatabaseGeometry, size: usize, prefix: Seq<PageIdentity>, local: nat, origin: EntityIdentity, topology: Topology) -> (Option<SchemaDiagnostic>, Seq<PhysicalEvidence>) {
    overflow_extents(image.len() as int, geometry, size as int, prefix, 0, local as int, origin, topology.classifications@, topology.relationships@)
}

/// Appends `image[start .. start + length]` to `bytes`.
fn append_range(bytes: &mut Vec<u8>, image: &[u8], start: usize, length: usize)
    requires
        start + length <= image@.len(),
    ensures
        final(bytes)@ == old(bytes)@ + image@.subrange(start as int, start + length),
{
    let mut i: usize = 0;
    while i < length
        invariant
            start + length <= image@.len(),
            image@.len() == image.len(),
            i <= length,
            bytes@ == old(bytes)@ + image@.subrange(start as int, start + i),
        decreases length - i,
    {
        bytes.push(image[start + i]);
        assert(old(bytes)@ + image@.subrange(start as int, start + i + 1) =~= (old(bytes)@ + image@.subrange(start as int, start + i)).push(image@[start + i]));
        i = i + 1;
    }
}

/// Whether a validated overflow relationship leads from `source` to `page`,
/// checking for a stop before each relationship looked at.
fn overflow_link(links: &Vec<Relationship>, source: EntityIdentity, page: PageIdentity, control: &mut WorkControl) -> (r: bool)
    ensures
        old(control).stop != 0 ==> final(control).stop == old(control).stop,
        control_kept(*old(control), *final(control)),
        same_phase(*old(control), *final(control)),
        r ==> overflow_linked(links@, source, page) && !final(control).is_stopped(),
        !final(control).is_stopped() ==> r == overflow_linked(links@, source, page),
{
    let mut i: usize = 0;
    while i < links.len()
        invariant
            i <= links@.len(),
            old(control).stop != 0 ==> control.stop == old(control).stop,
            control_kept(*old(control), *control),
            same_phase(*old(control), *control),
            i > 0 ==> !control.is_stopped(),
            forall|j: int| 0 <= j < i ==> !((#[trigger] links@[j]).kind == RelationshipKind::Overflow && links@[j].source == source && links@[j].target == page),
        decreases links@.len() - i,
    {
        if check_stop(control).is_err() {
            return false;
        }
        let link = links[i];
        if link.kind == RelationshipKind::Overflow && link.source == source && link.target == page {
            return true;
        }
        i = i + 1;
    }
    false
}

/// The position of the first overflow traversal from `origin`, checking for a
/// stop before each traversal looked at.
fn find_overflow(traversals: &Vec<Traversal>, origin: EntityIdentity, control: &mut WorkControl) -> (r: Option<usize>)
    ensures
        old(control).stop != 0 ==> final(control).stop == old(control).stop,
        control_kept(*old(control), *final(control)),
        same_phase(*old(control), *final(control)),
        r matches Some(t) ==> first_overflow(traversals@, origin, 0) == Some(t as int) && !final(control).is_stopped(),
        r is None ==> final(control).is_stopped() || first_overflow(traversals@, origin, 0) is None,
{
    let mut t: usize = 0;
    while t < traversals.len()
        invariant
            t <= traversals@.len(),
            old(control).stop != 0 ==> control.stop == old(control).stop,
            control_kept(*old(control), *control),
            same_phase(*old(control), *control),
            first_overflow(traversals@, origin, 0) == first_overflow(traversals@, origin, t as int),
        decreases traversals@.len() - t,
    {
        if check_stop(control).is_err() {
            return None;
        }
        if traversals[t].kind == TraversalKind::Overflow && traversals[t].origin == origin {
            return Some(t);
        }
        t = t + 1;
    }
    None
}

/// Reads the next overflow extent: from `page`, reached from `source`, with
/// `cursor` of `size` payload bytes in hand. A stop observed first cancels.
fn next_extent(
    image: &[u8],
    geometry: &DatabaseGeometry,
    topology: &Topology,
    page: PageIdentity,
    source: EntityIdentity,
    size: usize,
    cursor: usize,
    control: &mut WorkControl,
) -> (r: Result<PhysicalEvidence, SchemaDiagnostic>)
    requires
        geometry_wf(*geometry),
        cursor <= size,
    ensures
        control_kept(*old(control), *final(control)),
        same_phase(*old(control), *final(control)),
        r is Ok ==> !final(control).is_stopped(),
        r is Ok ==> r == overflow_step(image@.len() as int, *geometry, size as int, page, cursor as int, source, topology.classifications@, topology.relationships@),
        !final(control).is_stopped() ==> r == overflow_step(image@.len() as int, *geometry, size as int, page, cursor as int, source, topology.classifications@, topology.relationships@),
        r matches Ok(e) ==> cursor + e.range.length <= size && e.range.file_offset + e.range.length <= image@.len(),
{
    if control.stopped() {
        return Err(SchemaDiagnostic::Cancelled);
    }
    let classes = &topology.classifications;
    let ready = page.page_number >= 1 && ((page.page_number - 1) as usize) < classes.len()
        && classes[(page.page_number - 1) as usize].reconciled
        && classes[(page.page_number - 1) as usize].role == PageRole::Overflow;
    if !ready {
        return Err(SchemaDiagnostic::OverflowUnavailable);
    }
    if !overflow_link(&topology.relationships, source, page, control) {
        return Err(SchemaDiagnostic::OverflowUnavailable);
    }
    let room = (geometry.usable_size - 4) as usize;
    let length = if size - cursor < room { size - cursor } else { room };
    if length == 0 {
        return Err(SchemaDiagnostic::OverflowUnavailable);
    }
    let extent = crate::roles::evidence(geometry, page.page_number, 4, length as u32, ValidationRule::SchemaOverflowPayload);
    if extent.range.file_offset > image.len() as u64 || length as u64 > image.len() as u64 - extent.range.file_offset {
        return Err(SchemaDiagnostic::ReadFailed);
    }
    Ok(extent)
}

/// Reads the overflow part of a payload of `size` bytes along `prefix`, after
/// the local bytes already in `bytes`; each extent read is appended to
/// `evidence`.
#[verifier::rlimit(60)]
fn walk_overflow(
    image: &[u8],
    geometry: &DatabaseGeometry,
    topology: &Topology,
    prefix: &Vec<PageIdentity>,
    origin: EntityIdentity,
    size: usize,
    bytes: &mut Vec<u8>,
    evidence: &mut Vec<PhysicalEvidence>,
    control: &mut WorkControl,
) -> (r: Result<(), SchemaDiagnostic>)
    requires
        geometry_wf(*geometry),
        old(bytes)@.len() <= size,
        !old(control).is_stopped(),
    ensures
        control_kept(*old(control), *final(control)),
        same_phase(*old(control), *final(control)),
        r is Ok ==> walk_of(image@, *geometry, size, prefix@, old(bytes)@.len(), origin, *topology).0 is None,
        r is Ok ==> final(bytes)@ == old(bytes)@ + extent_bytes(image@, walk_of(image@, *geometry, size, prefix@, old(bytes)@.len(), origin, *topology).1),
        r is Ok ==> final(evidence)@ == old(evidence)@ + walk_of(image@, *geometry, size, prefix@, old(bytes)@.len(), origin, *topology).1,
        !final(control).is_stopped() ==> match walk_of(image@, *geometry, size, prefix@, old(bytes)@.len(), origin, *topology).0 {
            Some(e) => r == Err::<(), SchemaDiagnostic>(e),
            None => r is Ok,
        },
        !final(control).is_stopped() ==> final(evidence)@ == old(evidence)@ + walk_of(image@, *geometry, size, prefix@, old(bytes)@.len(), origin, *topology).1,
        grew_by_prefix(old(evidence)@, final(evidence)@, walk_of(image@, *geometry, size, prefix@, old(bytes)@.len(), origin, *topology).1),
{
    let classes = &topology.classifications;
    let ghost local = bytes@.len() as int;
    let ghost walk = overflow_extents(image@.len() as int, *geometry, size as int, prefix@, 0, local, origin, classes@, topology.relationships@);
    let ghost local_bytes = bytes@;
    let ghost pushed: Seq<PhysicalEvidence> = seq![];
    let mut cursor: usize = bytes.len();
    let mut source = origin;
    let mut k: usize = 0;
    while k < prefix.len()
        invariant
            geometry_wf(*geometry),
            k <= prefix@.len(),
            cursor <= size,
            control_kept(*old(control), *control),
            same_phase(*old(control), *control),
            !control.is_stopped(),
            ({
                let rest = overflow_extents(image@.len() as int, *geometry, size as int, prefix@, k as int, cursor as int, source, classes@, topology.relationships@);
                walk == (rest.0, pushed + rest.1)
            }),
            evidence@ == old(evidence)@ + pushed,
            bytes@ == local_bytes + extent_bytes(image@, pushed),
            local_bytes == old(bytes)@,
            classes@ == topology.classifications@,
            walk == walk_of(image@, *geometry, size, prefix@, old(bytes)@.len(), origin, *topology),
        decreases prefix@.len() - k,
    {
        let ghost rest_now = overflow_extents(image@.len() as int, *geometry, size as int, prefix@, k as int, cursor as int, source, classes@, topology.relationships@);
        assert(pushed + rest_now.1 =~= walk.1);
        assert(walk.1.subrange(0, pushed.len() as int) =~= pushed);
        assert(evidence@.subrange(0, old(evidence)@.len() as int) =~= old(evidence)@);
        assert(evidence@.subrange(old(evidence)@.len() as int, evidence@.len() as int) =~= pushed);
        assert(pushed + Seq::<PhysicalEvidence>::empty() =~= pushed);
        let page = prefix[k];
        let extent = match next_extent(image, geometry, topology, page, source, size, cursor, control) {
            Ok(extent) => extent,
            Err(e) => {
                proof {
                    if !control.is_stopped() {
                        assert(rest_now.0 == Some(e));
                        assert(rest_now.1 =~= Seq::<PhysicalEvidence>::empty());
                    }
                }
                return Err(e);
            },
        };
        let length = extent.range.length as usize;
        let ghost before_bytes = bytes@;
        assert(image@.len() == image.len());
        let offset: usize = extent.range.file_offset as usize;
        assert(offset as int == extent.range.file_offset as int);
        append_range(bytes, image, offset, length);
        evidence.push(extent);
        proof {
            let p2 = pushed.push(extent);
            assert(p2.drop_last() =~= pushed);
            assert(p2.last() == extent);
            let rest = overflow_extents(image@.len() as int, *geometry, size as int, prefix@, k + 1, cursor + length, EntityIdentity::Page { page_number: page.page_number }, classes@, topology.relationships@);
            assert(rest_now == (rest.0, seq![extent] + rest.1));
            assert(pushed + (seq![extent] + rest.1) =~= p2 + rest.1);
            assert(extent_bytes(image@, p2) == extent_bytes(image@, pushed) + image@.subrange(extent.range.file_offset as int, extent.range.file_offset + extent.range.length));
            assert(bytes@ == before_bytes + image@.subrange(extent.range.file_offset as int, extent.range.file_offset + extent.range.length));
            assert(bytes@ =~= local_bytes + extent_bytes(image@, p2));
            pushed = p2;
        }
        cursor = cursor + length;
        source = EntityIdentity::Page { page_number: page.page_number };
        k = k + 1;
    }
    assert(pushed + seq![] =~= pushed);
    assert(walk.1.subrange(0, walk.1.len() as int) =~= walk.1);
    assert(evidence@.subrange(0, old(evidence)@.len() as int) =~= old(evidence)@);
    assert(evidence@.subrange(old(evidence)@.len() as int, evidence@.len() as int) =~= pushed);
    if cursor != size {
        return Err(SchemaDiagnostic::OverflowUnavailable);
    }
    Ok(())
}

/// Reads schema payloads against a decode allowance.
pub struct PayloadReader<'a> {
    pub image: &'a [u8],
    pub geometry: &'a DatabaseGeometry,
    pub topology: &'a Topology,
    pub remaining: u64,
}

impl<'a> PayloadReader<'a> {
    /// Reads the whole payload of schema cell `cell`: the local part from the
    /// cell, the rest along its complete overflow traversal. The overflow
    /// extents read are appended to `evidence`.
    pub fn read(&mut self, cell: &CellDetail, evidence: &mut Vec<PhysicalEvidence>, control: &mut WorkControl) -> (r: Result<Vec<u8>, SchemaDiagnostic>)
        requires
            geometry_wf(*old(self).geometry),
        ensures
            final(self).image == old(self).image,
            final(self).geometry == old(self).geometry,
            final(self).topology == old(self).topology,
            control_kept(*old(control), *final(control)),
        same_phase(*old(control), *final(control)),
            ({
                let spec = spec_payload(
                    old(self).image@,
                    *old(self).geometry,
                    cell@,
                    old(self).topology.traversals@,
                    old(self).topology.classifications@,
                    old(self).topology.relationships@,
                    old(self).remaining,
                );
                &&& final(self).remaining == spec.remaining
                &&& r is Ok ==> (r matches Ok(bytes) && spec.result == Ok::<Seq<u8>, SchemaDiagnostic>(bytes@))
                &&& r is Ok ==> final(evidence)@ == old(evidence)@ + spec.extents
                &&& !final(control).is_stopped() ==> match spec.result {
                    Ok(bytes) => r matches Ok(b) && b@ == bytes,
                    Err(e) => r == Err::<Vec<u8>, SchemaDiagnostic>(e),
                }
                &&& !final(control).is_stopped() ==> final(evidence)@ == old(evidence)@ + spec.extents
                &&& grew_by_prefix(old(evidence)@, final(evidence)@, spec.extents)
            }),
    {
        let geometry = self.geometry;
        assert(old(evidence)@ + seq![] =~= old(evidence)@);
        assert(evidence@.subrange(0, evidence@.len() as int) =~= evidence@);
        if cell.diagnostic.is_some() || !(1 <= geometry.schema_format && geometry.schema_format <= 4) {
            return Err(SchemaDiagnostic::RecordInvalid);
        }
        let range = match cell.local_payload {
            Some(range) => range,
            None => return Err(SchemaDiagnostic::PayloadUnavailable),
        };
        let size = match cell.payload_size {
            Some(size) => size,
            None => return Err(SchemaDiagnostic::PayloadUnavailable),
        };
        if size > self.remaining {
            return Err(SchemaDiagnostic::DecodeBudget);
        }
        self.remaining = self.remaining - size;
        if size > usize::MAX as u64 {
            return Err(SchemaDiagnostic::AllocationFailed);
        }
        let size = size as usize;
        let local = range.length as usize;
        if local > size {
            return Err(SchemaDiagnostic::RecordInvalid);
        }
        let image = self.image;
        if range.file_offset > image.len() as u64 || local as u64 > image.len() as u64 - range.file_offset {
            return Err(SchemaDiagnostic::ReadFailed);
        }
        let mut bytes: Vec<u8> = Vec::new();
        append_range(&mut bytes, image, range.file_offset as usize, local);
        assert(bytes@ =~= image@.subrange(range.file_offset as int, range.file_offset + local));
        if local == size {
            return Ok(bytes);
        }
        let origin = EntityIdentity::Cell { page_number: cell.identity.page_number, cell_index: cell.identity.index };
        let topology = self.topology;
        let t = match find_overflow(&topology.traversals, origin, control) {
            Some(t) => t,
            None => return Err(SchemaDiagnostic::OverflowUnavailable),
        };
        proof {
            assert(first_overflow(topology.traversals@, origin, 0) == Some(t as int));
            lemma_first_overflow_bounds(topology.traversals@, origin, 0);
        }
        let traversal = &topology.traversals[t];
        if traversal.stop.is_some() {
            return Err(SchemaDiagnostic::OverflowUnavailable);
        }
        match walk_overflow(image, geometry, topology, &traversal.validated_prefix, origin, size, &mut bytes, evidence, control) {
            Ok(()) => Ok(bytes),
            Err(e) => Err(e),
        }
    }
}

/// One schema object, read from one physical schema cell.
pub struct SchemaObject {
    /// Identity comes from the physical schema cell, never the name or rowid.
    pub identity: CellIdentity,
    pub evidence: Vec<PhysicalEvidence>,
    pub object_type: Option<SchemaObjectType>,
    pub name: Option<String>,
    pub table_name: Option<String>,
    /// The root-page column as stored, which may be out of range.
    pub root_page: Option<i64>,
    pub declaration: Option<String>,
    pub root: Option<PageIdentity>,
    pub pages: Vec<PageIdentity>,
    /// The last page attributed to the object, in tree order.
    pub attributed_through: Option<u32>,
    pub state: SchemaState,
    pub diagnostics: Vec<SchemaDiagnostic>,
}

/// The record a schema cell decodes to, given what reading its payload gave.
pub open spec fn spec_decoded(outcome: PayloadOutcome, geometry: DatabaseGeometry) -> Result<SchemaRecordView, SchemaDiagnostic> {
    match outcome.result {
        Err(e) => Err(e),
        Ok(bytes) => spec_record(bytes, geometry),
    }
}

/// The evidence a schema object starts from: its local payload, or the cell
/// pointer when the cell has none.
pub open spec fn record_evidence(cell: CellView) -> PhysicalEvidence {
    PhysicalEvidence {
        page: PageIdentity { page_number: cell.identity.page_number },
        range: match cell.local_payload {
            Some(range) => range,
            None => cell.pointer,
        },
        validation_rule: ValidationRule::SchemaRecord,
    }
}

/// `object` carries the columns of record `v`.
pub open spec fn carries_record(object: SchemaObject, v: SchemaRecordView) -> bool {
    &&& object.object_type == Some(v.kind)
    &&& object.name matches Some(n) && n@ == v.name
    &&& object.table_name matches Some(t) && t@ == v.table
    &&& object.root_page == v.root
    &&& match v.sql {
        Some(sql) => object.declaration matches Some(d) && d@ == sql,
        None => object.declaration is None,
    }
    &&& object.diagnostics@.len() == 0
}

/// `object` carries no columns and the single diagnostic `e`.
pub open spec fn carries_failure(object: SchemaObject, e: SchemaDiagnostic) -> bool {
    &&& object.object_type is None
    &&& object.name is None
    &&& object.table_name is None
    &&& object.root_page is None
    &&& object.declaration is None
    &&& object.diagnostics@ == seq![e]
}

/// Decodes schema cell `cell` into an object that is not yet attributed.
pub fn decode(reader: &mut PayloadReader, cell: &CellDetail, control: &mut WorkControl) -> (object: SchemaObject)
    requires
        geometry_wf(*old(reader).geometry),
    ensures
        final(reader).image == old(reader).image,
        final(reader).geometry == old(reader).geometry,
        final(reader).topology == old(reader).topology,
        control_kept(*old(control), *final(control)),
        same_phase(*old(control), *final(control)),
        final(reader).remaining == spec_payload(old(reader).image@, *old(reader).geometry, cell@, old(reader).topology.traversals@, old(reader).topology.classifications@, old(reader).topology.relationships@, old(reader).remaining).remaining,
        object.identity == cell.identity,
        object.root is None,
        object.pages@.len() == 0,
        object.attributed_through is None,
        object.state == SchemaState::Unavailable,
        object.evidence@.len() >= 1,
        object.evidence@[0] == record_evidence(cell@),
        grew_by_prefix(seq![record_evidence(cell@)], object.evidence@, spec_payload(old(reader).image@, *old(reader).geometry, cell@, old(reader).topology.traversals@, old(reader).topology.classifications@, old(reader).topology.relationships@, old(reader).remaining).extents),
        !final(control).is_stopped() ==> object.evidence@ == seq![record_evidence(cell@)] + spec_payload(old(reader).image@, *old(reader).geometry, cell@, old(reader).topology.traversals@, old(reader).topology.classifications@, old(reader).topology.relationships@, old(reader).remaining).extents,
        object.object_type is Some ==> (spec_decoded(spec_payload(old(reader).image@, *old(reader).geometry, cell@, old(reader).topology.traversals@, old(reader).topology.classifications@, old(reader).topology.relationships@, old(reader).remaining), *old(reader).geometry) matches Ok(v) && carries_record(object, v)),
        !final(control).is_stopped() ==> match spec_decoded(spec_payload(old(reader).image@, *old(reader).geometry, cell@, old(reader).topology.traversals@, old(reader).topology.classifications@, old(reader).topology.relationships@, old(reader).remaining), *old(reader).geometry) {
            Ok(v) => carries_record(object, v),
            Err(e) => carries_failure(object, e),
        },
{
    let mut evidence: Vec<PhysicalEvidence> = Vec::new();
    evidence.push(PhysicalEvidence {
        page: PageIdentity { page_number: cell.identity.page_number },
        range: match cell.local_payload {
            Some(range) => range,
            None => cell.pointer,
        },
        validation_rule: ValidationRule::SchemaRecord,
    });
    let geometry = reader.geometry;
    let ghost first = evidence@;
    let decoded = match reader.read(cell, &mut evidence, control) {
        Ok(bytes) => record(bytes.as_slice(), geometry),
        Err(e) => Err(e),
    };
    assert(evidence@.subrange(0, 1)[0] == evidence@[0]);
    assert(first[0] == record_evidence(cell@));
    let mut object = SchemaObject {
        identity: cell.identity,
        evidence,
        object_type: None,
        name: None,
        table_name: None,
        root_page: None,
        declaration: None,
        root: None,
        pages: Vec::new(),
        attributed_through: None,
        state: SchemaState::Unavailable,
        diagnostics: Vec::new(),
    };
    match decoded {
        Ok(rec) => {
            object.object_type = Some(rec.kind);
            object.name = Some(rec.name);
            object.table_name = Some(rec.table);
            object.root_page = rec.root;
            object.declaration = rec.sql;
        },
        Err(e) => object.diagnostics.push(e),
    }
    object
}

/// The characters with the Unicode `White_Space` property, which is what
/// `str::trim_start` removes.
pub open spec fn white_space(c: char) -> bool {
    let v = c as u32;
    ||| 0x09 <= v <= 0x0D
    ||| v == 0x20
    ||| v == 0x85
    ||| v == 0xA0
    ||| v == 0x1680
    ||| 0x2000 <= v <= 0x200A
    ||| v == 0x2028
    ||| v == 0x2029
    ||| v == 0x202F
    ||| v == 0x205F
    ||| v == 0x3000
}

fn is_white_space(c: char) -> (r: bool)
    ensures
        r == white_space(c),
{
    let v = c as u32;
    (0x09 <= v && v <= 0x0D) || v == 0x20 || v == 0x85 || v == 0xA0 || v == 0x1680 || (0x2000 <= v && v <= 0x200A)
        || v == 0x2028 || v == 0x2029 || v == 0x202F || v == 0x205F || v == 0x3000
}

/// Whether `c` is alphabetic or numeric in the Unicode sense, as
/// `char::is_alphanumeric` decides it.
pub uninterp spec fn alphanumeric(c: char) -> bool;

/// Calls `char::is_alphanumeric`, which tests the Unicode `Alphabetic` and
/// `Numeric` properties; the result is named `alphanumeric(c)`. Among ASCII
/// characters those properties hold of the Latin letters and the decimal
/// digits alone.
#[verifier::external_body]
fn is_alphanumeric(c: char) -> (r: bool)
    ensures
        r == alphanumeric(c),
        (c as u32) < 128 ==> r == (ascii_alphabetic(c) || ('0' <= c && c <= '9')),
{
    c.is_alphanumeric()
}

pub open spec fn ascii_alphabetic(c: char) -> bool {
    ('a' <= c && c <= 'z') || ('A' <= c && c <= 'Z')
}

/// The first position at or after `i` that is not white space.
pub open spec fn space_end(s: Seq<char>, i: int) -> int
    decreases s.len() - i,
{
    if 0 <= i < s.len() && white_space(s[i]) {
        space_end(s, i + 1)
    } else {
        i
    }
}

/// The position of the first `*/` at or after `i`.
pub open spec fn find_close(s: Seq<char>, i: int) -> Option<int>
    decreases s.len() - i,
{
    if i < 0 || i + 1 >= s.len() {
        None
    } else if s[i] == '*' && s[i + 1] == '/' {
        Some(i)
    } else {
        find_close(s, i + 1)
    }
}

/// The position of the first newline at or after `i`.
pub open spec fn find_newline(s: Seq<char>, i: int) -> Option<int>
    decreases s.len() - i,
{
    if i < 0 || i >= s.len() {
        None
    } else if s[i] == '\n' {
        Some(i)
    } else {
        find_newline(s, i + 1)
    }
}

pub proof fn lemma_find_close(s: Seq<char>, i: int)
    ensures
        find_close(s, i) matches Some(j) ==> i <= j && j + 1 < s.len() && s[j] == '*' && s[j + 1] == '/',
    decreases s.len() - i,
{
    if !(i < 0 || i + 1 >= s.len()) && !(s[i] == '*' && s[i + 1] == '/') {
        lemma_find_close(s, i + 1);
    }
}

pub proof fn lemma_find_newline(s: Seq<char>, i: int)
    ensures
        find_newline(s, i) matches Some(j) ==> i <= j < s.len() && s[j] == '\n',
    decreases s.len() - i,
{
    if !(i < 0 || i >= s.len()) && s[i] != '\n' {
        lemma_find_newline(s, i + 1);
    }
}

pub proof fn lemma_space_end(s: Seq<char>, i: int)
    requires
        0 <= i,
    ensures
        i <= space_end(s, i),
        i <= s.len() ==> space_end(s, i) <= s.len(),
    decreases s.len() - i,
{
    if 0 <= i < s.len() && white_space(s[i]) {
        lemma_space_end(s, i + 1);
    }
}

/// Where the text after white space and comments from `i` begins; `None` when
/// a comment is never closed.
pub open spec fn trivia_end(s: Seq<char>, i: int) -> Option<int>
    decreases s.len() - i,
{
    if i < 0 || i > s.len() {
        None
    } else {
        let j = space_end(s, i);
        if j + 1 < s.len() && s[j] == '/' && s[j + 1] == '*' {
            match find_close(s, j + 2) {
                None => None,
                Some(c) => {
                    proof {
                        lemma_space_end(s, i);
                        lemma_find_close(s, j + 2);
                    }
                    trivia_end(s, c + 2)
                },
            }
        } else if j + 1 < s.len() && s[j] == '-' && s[j + 1] == '-' {
            match find_newline(s, j + 2) {
                None => None,
                Some(n) => {
                    proof {
                        lemma_space_end(s, i);
                        lemma_find_newline(s, j + 2);
                    }
                    trivia_end(s, n + 1)
                },
            }
        } else {
            Some(j)
        }
    }
}

/// The end of the run of ASCII letters that starts at `i`.
pub open spec fn word_end(s: Seq<char>, i: int) -> int
    decreases s.len() - i,
{
    if 0 <= i < s.len() && ascii_alphabetic(s[i]) {
        word_end(s, i + 1)
    } else {
        i
    }
}

/// The code of `c` with ASCII upper case folded to lower case.
pub open spec fn ascii_lower(c: char) -> u32 {
    if 'A' <= c && c <= 'Z' {
        ((c as u32) + 32) as u32
    } else {
        c as u32
    }
}

/// ASCII case-insensitive equality.
pub open spec fn same_ignoring_case(a: Seq<char>, b: Seq<char>) -> bool {
    a.len() == b.len() && forall|k: int| 0 <= k < a.len() ==> ascii_lower(#[trigger] a[k]) == ascii_lower(b[k])
}

/// The position after keyword `keyword` when it is the next word from `i`,
/// ignoring white space, comments and ASCII case, and not run on into an
/// identifier.
pub open spec fn keyword_after(s: Seq<char>, i: int, keyword: Seq<char>) -> Option<int> {
    match trivia_end(s, i) {
        None => None,
        Some(j) => {
            let e = word_end(s, j);
            if same_ignoring_case(s.subrange(j, e), keyword) && !(e < s.len() && (alphanumeric(s[e]) || s[e] == '_')) {
                Some(e)
            } else {
                None
            }
        },
    }
}

/// Whether a declaration begins `CREATE VIRTUAL TABLE`: a rootless virtual
/// table. Only this prefix is recognized; no SQL is evaluated.
pub open spec fn spec_virtual_table(s: Seq<char>) -> bool {
    match keyword_after(s, 0, seq!['C', 'R', 'E', 'A', 'T', 'E']) {
        None => false,
        Some(a) => match keyword_after(s, a, seq!['V', 'I', 'R', 'T', 'U', 'A', 'L']) {
            None => false,
            Some(b) => keyword_after(s, b, seq!['T', 'A', 'B', 'L', 'E']) is Some,
        },
    }
}

fn fold(c: char) -> (r: u32)
    ensures
        r == ascii_lower(c),
{
    if 'A' <= c && c <= 'Z' {
        (c as u32) + 32
    } else {
        c as u32
    }
}

/// Where the text after white space and comments from `i` begins.
fn skip_trivia(s: &str, n: usize, start: usize) -> (r: Option<usize>)
    requires
        n == s@.len(),
        start <= n,
    ensures
        match trivia_end(s@, start as int) {
            Some(j) => r == Some(j as usize),
            None => r is None,
        },
        r matches Some(j) ==> start <= j <= n,
        trivia_end(s@, start as int) matches Some(j) ==> start <= j <= n,
{
    let mut i = start;
    loop
        invariant
            n == s@.len(),
            start <= i <= n,
            trivia_end(s@, start as int) == trivia_end(s@, i as int),
        decreases n - i,
    {
        let mut j = i;
        while j < n && is_white_space(s.get_char(j))
            invariant
                n == s@.len(),
                i <= j <= n,
                space_end(s@, i as int) == space_end(s@, j as int),
            decreases n - j,
        {
            j = j + 1;
        }
        assert(space_end(s@, j as int) == j);
        if j < n && n - j > 1 && s.get_char(j) == '/' && s.get_char(j + 1) == '*' {
            let mut c = j + 2;
            while c < n && n - c > 1 && !(s.get_char(c) == '*' && s.get_char(c + 1) == '/')
                invariant
                    n == s@.len(),
                    j + 2 <= c <= n,
                    find_close(s@, (j + 2) as int) == find_close(s@, c as int),
                decreases n - c,
            {
                c = c + 1;
            }
            if c >= n || n - c <= 1 {
                return None;
            }
            proof { lemma_space_end(s@, i as int); }
            i = c + 2;
        } else if j < n && n - j > 1 && s.get_char(j) == '-' && s.get_char(j + 1) == '-' {
            let mut m = j + 2;
            while m < n && s.get_char(m) != '\n'
                invariant
                    n == s@.len(),
                    j + 2 <= m <= n,
                    find_newline(s@, (j + 2) as int) == find_newline(s@, m as int),
                decreases n - m,
            {
                m = m + 1;
            }
            if m >= n {
                return None;
            }
            proof { lemma_space_end(s@, i as int); }
            i = m + 1;
        } else {
            return Some(j);
        }
    }
}

/// The position after `keyword` when it is the next word from `i`.
fn keyword_end(s: &str, n: usize, i: usize, keyword: &Vec<char>) -> (r: Option<usize>)
    requires
        n == s@.len(),
        i <= n,
    ensures
        match keyword_after(s@, i as int, keyword@) {
            Some(e) => r == Some(e as usize),
            None => r is None,
        },
        r matches Some(e) ==> e <= n,
        keyword_after(s@, i as int, keyword@) matches Some(e) ==> i <= e <= n,
{
    let j = match skip_trivia(s, n, i) {
        Some(j) => j,
        None => return None,
    };
    let mut e = j;
    while e < n && ascii_letter(s.get_char(e))
        invariant
            n == s@.len(),
            j <= e <= n,
            word_end(s@, j as int) == word_end(s@, e as int),
        decreases n - e,
    {
        e = e + 1;
    }
    assert(word_end(s@, e as int) == e);
    let ghost word = s@.subrange(j as int, e as int);
    if e - j != keyword.len() {
        return None;
    }
    let mut k: usize = 0;
    while k < keyword.len()
        invariant
            n == s@.len(),
            j <= e <= n,
            e - j == keyword@.len(),
            word == s@.subrange(j as int, e as int),
            trivia_end(s@, i as int) == Some(j as int),
            word_end(s@, j as int) == e as int,
            k <= keyword@.len(),
            forall|q: int| 0 <= q < k ==> ascii_lower(#[trigger] word[q]) == ascii_lower(keyword@[q]),
        decreases keyword@.len() - k,
    {
        if fold(s.get_char(j + k)) != fold(keyword[k]) {
            assert(word[k as int] == s@[j + k]);
            assert(!same_ignoring_case(word, keyword@));
            return None;
        }
        k = k + 1;
    }
    assert(same_ignoring_case(word, keyword@));
    if e < n {
        let c = s.get_char(e);
        if is_alphanumeric(c) || c == '_' {
            assert(s@[e as int] == c);
            return None;
        }
    }
    Some(e)
}

fn ascii_letter(c: char) -> (r: bool)
    ensures
        r == ascii_alphabetic(c),
{
    ('a' <= c && c <= 'z') || ('A' <= c && c <= 'Z')
}

/// Whether a declaration begins `CREATE VIRTUAL TABLE`, the mark of a
/// rootless virtual table.
pub fn virtual_table(sql: &str) -> (r: bool)
    ensures
        r == spec_virtual_table(sql@),
{
    let n = sql.unicode_len();
    let create = vec!['C', 'R', 'E', 'A', 'T', 'E'];
    let virtual_word = vec!['V', 'I', 'R', 'T', 'U', 'A', 'L'];
    let table = vec!['T', 'A', 'B', 'L', 'E'];
    assert(create@ =~= seq!['C', 'R', 'E', 'A', 'T', 'E']);
    assert(virtual_word@ =~= seq!['V', 'I', 'R', 'T', 'U', 'A', 'L']);
    assert(table@ =~= seq!['T', 'A', 'B', 'L', 'E']);
    let a = match keyword_end(sql, n, 0, &create) {
        Some(a) => a,
        None => return false,
    };
    let b = match keyword_end(sql, n, a, &virtual_word) {
        Some(b) => b,
        None => return false,
    };
    keyword_end(sql, n, b, &table).is_some()
}

/// The specific B-tree role a page reconciled to, if it did.
pub open spec fn spec_btree_role(classes: Seq<PageClassification>, number: u32) -> Option<PageRole> {
    if 1 <= number <= classes.len() && classes[number - 1].reconciled && is_specific_btree(classes[number - 1].role) {
        Some(classes[number - 1].role)
    } else {
        None
    }
}

/// The specific B-tree role page `number` reconciled to, if it did.
pub fn btree_role(topology: &Topology, number: u32) -> (r: Option<PageRole>)
    ensures
        r == spec_btree_role(topology.classifications@, number),
{
    if number == 0 || (number - 1) as usize >= topology.classifications.len() {
        return None;
    }
    let class = &topology.classifications[(number - 1) as usize];
    if !class.reconciled {
        return None;
    }
    match class.role {
        PageRole::TableLeaf | PageRole::TableInterior | PageRole::IndexLeaf | PageRole::IndexInterior => Some(class.role),
        _ => None,
    }
}

/// Whether a validated B-tree relationship links `parent` to `child`.
pub open spec fn child_linked(links: Seq<Relationship>, parent: u32, child: u32) -> bool {
    exists|k: int|
        0 <= k < links.len() && (#[trigger] links[k]).kind == RelationshipKind::BtreeChild
            && spec_source_page(links[k].source) == parent && links[k].target.page_number == child
}

/// Whether some B-tree claim, validated or not, names `page` as a child.
pub open spec fn child_target(claims: Seq<RelationshipClaim>, page: u32) -> bool {
    exists|i: int|
        0 <= i < claims.len() && (#[trigger] claims[i]).kind == RelationshipKind::BtreeChild
            && claims[i].target == Some(PageIdentity { page_number: page })
}

/// How far from `pos` a traversal prefix stays within reconciled B-tree pages
/// joined by validated links.
pub open spec fn usable_from(prefix: Seq<PageIdentity>, classes: Seq<PageClassification>, links: Seq<Relationship>, pos: int) -> int
    decreases prefix.len() - pos,
{
    if pos < 0 || pos >= prefix.len() {
        prefix.len() as int
    } else if spec_btree_role(classes, prefix[pos].page_number) is None
        || (pos > 0 && !child_linked(links, prefix[pos - 1].page_number, prefix[pos].page_number)) {
        pos
    } else {
        usable_from(prefix, classes, links, pos + 1)
    }
}

pub open spec fn is_tree(t: TraversalView, root: u32) -> bool {
    t.kind == TraversalKind::Btree && spec_source_page(t.origin) == root
}

/// One of the first `upto` pages of `prefix` is page `p`.
pub open spec fn holds_before(prefix: Seq<PageIdentity>, p: u32, upto: int) -> bool {
    exists|pos: int| 0 <= pos < upto && (#[trigger] prefix[pos]).page_number == p
}

/// Each of the first `upto` pages of `prefix` has an inventoried page entity.
pub open spec fn inventoried_before(prefix: Seq<PageIdentity>, pages: Seq<PageEntity>, upto: int) -> bool {
    forall|pos: int| 0 <= pos < upto ==> (#[trigger] prefix[pos]).page_number <= pages.len()
}

/// One of the first `upto` pages of `prefix` was only partly decoded.
pub open spec fn coverage_gap(prefix: Seq<PageIdentity>, pages: Seq<PageEntity>, upto: int) -> bool {
    exists|pos: int|
        0 <= pos < upto && pages[(#[trigger] prefix[pos]).page_number - 1].detail.coverage != LocalCoverage::Complete
}

/// The usable prefix of `t` holds page `p`.
pub open spec fn usable_holds(t: TraversalView, p: u32, classes: Seq<PageClassification>, links: Seq<Relationship>) -> bool {
    holds_before(t.validated_prefix, p, usable_from(t.validated_prefix, classes, links, 0))
}

/// Every usable page of `t` has an inventoried page entity.
pub open spec fn usable_inventoried(t: TraversalView, classes: Seq<PageClassification>, links: Seq<Relationship>, pages: Seq<PageEntity>) -> bool {
    inventoried_before(t.validated_prefix, pages, usable_from(t.validated_prefix, classes, links, 0))
}

/// Whether the usable prefix of `t` stops short of the whole prefix, or
/// holds a page whose local decoding was incomplete.
pub open spec fn prefix_partial(t: TraversalView, classes: Seq<PageClassification>, links: Seq<Relationship>, pages: Seq<PageEntity>) -> bool {
    let usable = usable_from(t.validated_prefix, classes, links, 0);
    usable < t.validated_prefix.len() || coverage_gap(t.validated_prefix, pages, usable)
}

/// Whether a tree traversal leaves its tree only partly known.
pub open spec fn traversal_partial(t: TraversalView, classes: Seq<PageClassification>, links: Seq<Relationship>, pages: Seq<PageEntity>, complete: bool) -> bool {
    t.stop is Some || !complete || prefix_partial(t, classes, links, pages)
}

/// Some of the first `n` traversals is a tree traversal from `root`.
pub open spec fn has_tree(ts: Seq<Traversal>, n: int, root: u32) -> bool {
    exists|k: int| 0 <= k < n && is_tree((#[trigger] ts[k])@, root)
}

/// Some of the first `n` traversals from `root` leaves the tree partly known.
pub open spec fn tree_partial(ts: Seq<Traversal>, n: int, root: u32, classes: Seq<PageClassification>, links: Seq<Relationship>, pages: Seq<PageEntity>, complete: bool) -> bool {
    exists|k: int| 0 <= k < n && is_tree((#[trigger] ts[k])@, root) && traversal_partial(ts[k]@, classes, links, pages, complete)
}

/// Page `p` lies in the usable part of one of the first `n` traversals from `root`.
pub open spec fn tree_member(ts: Seq<Traversal>, n: int, root: u32, p: u32, classes: Seq<PageClassification>, links: Seq<Relationship>) -> bool {
    exists|k: int| 0 <= k < n && is_tree((#[trigger] ts[k])@, root) && usable_holds(ts[k]@, p, classes, links)
}

/// Every usable page of every tree traversal has an inventoried page entity.
pub open spec fn trees_inventoried(ts: Seq<Traversal>, classes: Seq<PageClassification>, links: Seq<Relationship>, pages: Seq<PageEntity>) -> bool {
    forall|k: int| 0 <= k < ts.len() && (#[trigger] ts[k])@.kind == TraversalKind::Btree ==> usable_inventoried(ts[k]@, classes, links, pages)
}

/// One storage tree: its root, whether it is only partly known, and its
/// usable pages in increasing order.
pub struct TreeRoot {
    pub root: u32,
    pub partial: bool,
    pub pages: Vec<u32>,
}

/// The storage trees that the B-tree traversals reached.
pub struct TreeIndex {
    pub roots: Vec<TreeRoot>,
    /// Every page some B-tree claim names as a child.
    pub child_targets: Vec<u32>,
}

pub open spec fn sorted_set(pages: Seq<u32>) -> bool {
    forall|i: int, j: int| 0 <= i < j < pages.len() ==> (#[trigger] pages[i]) < (#[trigger] pages[j])
}

/// `tree` describes the tree at `tree.root` as the first `n` traversals reach it.
pub open spec fn describes_tree(
    tree: TreeRoot,
    ts: Seq<Traversal>,
    n: int,
    classes: Seq<PageClassification>,
    links: Seq<Relationship>,
    pages: Seq<PageEntity>,
    complete: bool,
) -> bool {
    &&& has_tree(ts, n, tree.root)
    &&& tree.partial == tree_partial(ts, n, tree.root, classes, links, pages, complete)
    &&& sorted_set(tree.pages@)
    &&& forall|p: u32| tree.pages@.contains(p) <==> tree_member(ts, n, tree.root, p, classes, links)
}

/// `index` describes the storage trees of `ts`, one entry per root.
pub open spec fn indexes_trees(
    index: Seq<TreeRoot>,
    ts: Seq<Traversal>,
    classes: Seq<PageClassification>,
    links: Seq<Relationship>,
    pages: Seq<PageEntity>,
    complete: bool,
) -> bool {
    &&& distinct_roots(index)
    &&& forall|i: int| 0 <= i < index.len() ==> describes_tree(#[trigger] index[i], ts, ts.len() as int, classes, links, pages, complete)
    &&& forall|r: u32| has_tree(ts, ts.len() as int, r) ==> exists|i: int| 0 <= i < index.len() && (#[trigger] index[i]).root == r
}

/// Adds `p` to the increasing set `pages`.
fn insert_sorted(pages: &mut Vec<u32>, p: u32)
    requires
        sorted_set(old(pages)@),
    ensures
        sorted_set(final(pages)@),
        forall|q: u32| final(pages)@.contains(q) <==> (old(pages)@.contains(q) || q == p),
{
    let mut k: usize = 0;
    while k < pages.len() && pages[k] < p
        invariant
            k <= pages@.len(),
            pages@ == old(pages)@,
            forall|j: int| 0 <= j < k ==> (#[trigger] pages@[j]) < p,
        decreases pages@.len() - k,
    {
        k = k + 1;
    }
    if k < pages.len() && pages[k] == p {
        assert(old(pages)@[k as int] == p);
        return;
    }
    let ghost before = pages@;
    assert(before == old(pages)@);
    pages.insert(k, p);
    assert forall|i: int, j: int| 0 <= i < j < pages@.len() implies (#[trigger] pages@[i]) < (#[trigger] pages@[j]) by {
        if i < k && j < k {
            assert(pages@[i] == before[i] && pages@[j] == before[j]);
        } else if i < k && j == k {
            assert(pages@[i] == before[i]);
        } else if i < k {
            assert(pages@[i] == before[i] && pages@[j] == before[j - 1]);
            assert(before[k as int] > p);
            if j - 1 > k { assert(before[k as int] < before[j - 1]); }
        } else if i == k {
            assert(pages@[j] == before[j - 1]);
            assert(before[k as int] > p);
            if j - 1 > k { assert(before[k as int] < before[j - 1]); }
        } else {
            assert(pages@[i] == before[i - 1] && pages@[j] == before[j - 1]);
        }
    }
    assert forall|q: u32| pages@.contains(q) <==> (before.contains(q) || q == p) by {
        if pages@.contains(q) {
            let w = choose|w: int| 0 <= w < pages@.len() && pages@[w] == q;
            if w < k { assert(before[w] == q); } else if w > k { assert(before[w - 1] == q); }
        }
        if before.contains(q) {
            let w = choose|w: int| 0 <= w < before.len() && before[w] == q;
            if w < k { assert(pages@[w] == q); } else { assert(pages@[w + 1] == q); }
        }
        if q == p {
            assert(pages@[k as int] == p);
        }
    }
    assert(forall|q: u32| pages@.contains(q) <==> (old(pages)@.contains(q) || q == p));
}


/// Whether a validated B-tree relationship links `parent` to `child`.
fn is_child_linked(links: &Vec<Relationship>, parent: u32, child: u32) -> (r: bool)
    ensures
        r == child_linked(links@, parent, child),
{
    let mut i: usize = 0;
    while i < links.len()
        invariant
            i <= links@.len(),
            forall|k: int|
                0 <= k < i ==> !((#[trigger] links@[k]).kind == RelationshipKind::BtreeChild
                    && spec_source_page(links@[k].source) == parent && links@[k].target.page_number == child),
        decreases links@.len() - i,
    {
        let link = &links[i];
        if link.kind == RelationshipKind::BtreeChild && crate::topology::source_page(&link.source) == parent
            && link.target.page_number == child {
            return true;
        }
        i = i + 1;
    }
    false
}

/// Walks the usable prefix of tree traversal `t`, adding its pages to
/// `members`; on success, says whether the prefix is partial.
fn walk_tree(
    topology: &Topology,
    pages: &Vec<PageEntity>,
    t: &Traversal,
    members: &mut Vec<u32>,
    control: &mut WorkControl,
) -> (r: Result<bool, SchemaDiagnostic>)
    requires
        sorted_set(old(members)@),
    ensures
        control_kept(*old(control), *final(control)),
        same_phase(*old(control), *final(control)),
        r matches Ok(partial) ==> {
            &&& partial == prefix_partial(t@, topology.classifications@, topology.relationships@, pages@)
            &&& usable_inventoried(t@, topology.classifications@, topology.relationships@, pages@)
            &&& sorted_set(final(members)@)
            &&& forall|q: u32| final(members)@.contains(q)
                <==> (old(members)@.contains(q) || usable_holds(t@, q, topology.classifications@, topology.relationships@))
        },
        r == Err::<bool, SchemaDiagnostic>(SchemaDiagnostic::StorageUnavailable)
            ==> !usable_inventoried(t@, topology.classifications@, topology.relationships@, pages@),
        r is Err && r != Err::<bool, SchemaDiagnostic>(SchemaDiagnostic::StorageUnavailable) ==> final(control).is_stopped(),
{
    let ghost classes = topology.classifications@;
    let ghost links = topology.relationships@;
    let ghost prefix = t@.validated_prefix;
    let n = t.validated_prefix.len();
    let mut pos: usize = 0;
    let mut partial = false;
    while pos < n
        invariant
            n == prefix.len(),
            prefix == t@.validated_prefix,
            classes == topology.classifications@,
            links == topology.relationships@,
            pos <= n,
            usable_from(prefix, classes, links, 0) == usable_from(prefix, classes, links, pos as int),
            sorted_set(members@),
            forall|q: u32| #[trigger] members@.contains(q) <==> (old(members)@.contains(q) || holds_before(prefix, q, pos as int)),
            inventoried_before(prefix, pages@, pos as int),
            partial == coverage_gap(prefix, pages@, pos as int),
            control_kept(*old(control), *control),
            same_phase(*old(control), *control),
        decreases n - pos,
    {
        if let Err(e) = check_stop(control) {
            return Err(e);
        }
        let number = t.validated_prefix[pos].page_number;
        let usable = btree_role(topology, number).is_some()
            && (pos == 0 || is_child_linked(&topology.relationships, t.validated_prefix[pos - 1].page_number, number));
        if !usable {
            assert(usable_from(prefix, classes, links, pos as int) == pos);
            assert forall|q: u32| usable_holds(t@, q, classes, links) <==> holds_before(prefix, q, pos as int) by {}
            return Ok(true);
        }
        assert(usable_from(prefix, classes, links, pos as int) == usable_from(prefix, classes, links, pos + 1));
        let ghost before = members@;
        assert(forall|q: u32| #[trigger] before.contains(q) <==> (old(members)@.contains(q) || holds_before(prefix, q, pos as int)));
        insert_sorted(members, number);
        assert(prefix[pos as int].page_number == number);
        assert forall|q: u32| members@.contains(q) <==> (old(members)@.contains(q) || holds_before(prefix, q, pos + 1)) by {
            assert(members@.contains(q) <==> (before.contains(q) || q == number));
            assert(before.contains(q) <==> (old(members)@.contains(q) || holds_before(prefix, q, pos as int)));
            if holds_before(prefix, q, pos as int) {
                let w = choose|w: int| 0 <= w < pos && (#[trigger] prefix[w]).page_number == q;
                assert(0 <= w < pos + 1 && prefix[w].page_number == q);
            }
            if holds_before(prefix, q, pos + 1) && !holds_before(prefix, q, pos as int) {
                let w = choose|w: int| 0 <= w < pos + 1 && (#[trigger] prefix[w]).page_number == q;
                if w < pos {
                    assert(0 <= w < pos && prefix[w].page_number == q);
                }
                assert(w == pos);
            }
            if q == number {
                assert(0 <= pos < pos + 1 && prefix[pos as int].page_number == q);
            }
        }
        if number as usize > pages.len() {
            assert(!inventoried_before(prefix, pages@, usable_from(prefix, classes, links, 0))) by {
                crate::schema::lemma_usable_from_bound(prefix, classes, links, pos + 1);
                assert(prefix[pos as int].page_number > pages@.len());
            }
            return Err(SchemaDiagnostic::StorageUnavailable);
        }
        if pages[(number - 1) as usize].detail.coverage != LocalCoverage::Complete {
            partial = true;
        }
        assert(partial == coverage_gap(prefix, pages@, pos + 1)) by {
            if coverage_gap(prefix, pages@, pos + 1) && !coverage_gap(prefix, pages@, pos as int) {
                let w = choose|w: int|
                    0 <= w < pos + 1 && pages@[(#[trigger] prefix[w]).page_number - 1].detail.coverage != LocalCoverage::Complete;
                assert(w == pos);
            }
            if pages@[number - 1].detail.coverage != LocalCoverage::Complete {
                assert(prefix[pos as int].page_number == number);
            }
        }
        pos = pos + 1;
    }
    assert(usable_from(prefix, classes, links, n as int) == n);
    Ok(partial)
}

/// A traversal prefix is usable from `pos` at least as far as `pos`.
pub proof fn lemma_usable_from_bound(prefix: Seq<PageIdentity>, classes: Seq<PageClassification>, links: Seq<Relationship>, pos: int)
    requires
        0 <= pos,
    ensures
        pos <= prefix.len() ==> pos <= usable_from(prefix, classes, links, pos),
        usable_from(prefix, classes, links, pos) <= prefix.len(),
    decreases prefix.len() - pos,
{
    if pos < prefix.len() {
        lemma_usable_from_bound(prefix, classes, links, pos + 1);
    }
}


/// Gathers the tree at `root` from every traversal that starts there.
fn collect_tree(topology: &Topology, pages: &Vec<PageEntity>, root: u32, control: &mut WorkControl) -> (r: Result<TreeRoot, SchemaDiagnostic>)
    requires
        has_tree(topology.traversals@, topology.traversals@.len() as int, root),
    ensures
        control_kept(*old(control), *final(control)),
        same_phase(*old(control), *final(control)),
        r matches Ok(tree) ==> {
            &&& tree.root == root
            &&& describes_tree(
                tree,
                topology.traversals@,
                topology.traversals@.len() as int,
                topology.classifications@,
                topology.relationships@,
                pages@,
                topology.coverage.reason == TopologyCoverageReason::Complete,
            )
            &&& forall|k: int|
                0 <= k < topology.traversals@.len() && is_tree((#[trigger] topology.traversals@[k])@, root)
                    ==> usable_inventoried(topology.traversals@[k]@, topology.classifications@, topology.relationships@, pages@)
        },
        r == Err::<TreeRoot, SchemaDiagnostic>(SchemaDiagnostic::StorageUnavailable) ==> exists|k: int|
            0 <= k < topology.traversals@.len() && is_tree((#[trigger] topology.traversals@[k])@, root)
                && !usable_inventoried(topology.traversals@[k]@, topology.classifications@, topology.relationships@, pages@),
        r is Err && r != Err::<TreeRoot, SchemaDiagnostic>(SchemaDiagnostic::StorageUnavailable) ==> final(control).is_stopped(),
{
    let ghost ts = topology.traversals@;
    let ghost classes = topology.classifications@;
    let ghost links = topology.relationships@;
    let complete = topology.coverage.reason == TopologyCoverageReason::Complete;
    let mut members: Vec<u32> = Vec::new();
    let mut partial = false;
    let mut k: usize = 0;
    while k < topology.traversals.len()
        invariant
            ts == topology.traversals@,
            classes == topology.classifications@,
            links == topology.relationships@,
            complete == (topology.coverage.reason == TopologyCoverageReason::Complete),
            k <= ts.len(),
            sorted_set(members@),
            forall|p: u32| #[trigger] members@.contains(p) <==> tree_member(ts, k as int, root, p, classes, links),
            partial == tree_partial(ts, k as int, root, classes, links, pages@, complete),
            forall|j: int| 0 <= j < k && is_tree((#[trigger] ts[j])@, root) ==> usable_inventoried(ts[j]@, classes, links, pages@),
            control_kept(*old(control), *control),
            same_phase(*old(control), *control),
        decreases ts.len() - k,
    {
        let t = &topology.traversals[k];
        if t.kind == TraversalKind::Btree && crate::topology::source_page(&t.origin) == root {
            let ghost before = members@;
            assert(forall|p: u32| #[trigger] before.contains(p) <==> tree_member(ts, k as int, root, p, classes, links));
            let found = match walk_tree(topology, pages, t, &mut members, control) {
                Ok(found) => found,
                Err(e) => {
                    assert(is_tree(ts[k as int]@, root));
                    return Err(e);
                },
            };
            assert forall|p: u32| #[trigger] members@.contains(p) <==> tree_member(ts, k + 1, root, p, classes, links) by {
                if tree_member(ts, k + 1, root, p, classes, links) && !tree_member(ts, k as int, root, p, classes, links) {
                    let w = choose|w: int| 0 <= w < k + 1 && is_tree((#[trigger] ts[w])@, root) && usable_holds(ts[w]@, p, classes, links);
                    assert(w == k);
                }
                if tree_member(ts, k as int, root, p, classes, links) {
                    let w = choose|w: int| 0 <= w < k && is_tree((#[trigger] ts[w])@, root) && usable_holds(ts[w]@, p, classes, links);
                    assert(0 <= w < k + 1);
                }
            }
            let ghost was = partial;
            partial = partial || t.stop.is_some() || !complete || found;
            assert(partial == tree_partial(ts, k + 1, root, classes, links, pages@, complete)) by {
                if tree_partial(ts, k + 1, root, classes, links, pages@, complete) && !was {
                    let w = choose|w: int|
                        0 <= w < k + 1 && is_tree((#[trigger] ts[w])@, root) && traversal_partial(ts[w]@, classes, links, pages@, complete);
                    assert(w == k);
                }
                if was {
                    let w = choose|w: int|
                        0 <= w < k && is_tree((#[trigger] ts[w])@, root) && traversal_partial(ts[w]@, classes, links, pages@, complete);
                    assert(0 <= w < k + 1);
                }
                if partial && !was {
                    assert(is_tree(ts[k as int]@, root) && traversal_partial(ts[k as int]@, classes, links, pages@, complete));
                }
            }
        } else {
            assert forall|p: u32| #[trigger] members@.contains(p) <==> tree_member(ts, k + 1, root, p, classes, links) by {
                if tree_member(ts, k + 1, root, p, classes, links) {
                    let w = choose|w: int| 0 <= w < k + 1 && is_tree((#[trigger] ts[w])@, root) && usable_holds(ts[w]@, p, classes, links);
                    assert(w != k);
                }
                if tree_member(ts, k as int, root, p, classes, links) {
                    let w = choose|w: int| 0 <= w < k && is_tree((#[trigger] ts[w])@, root) && usable_holds(ts[w]@, p, classes, links);
                    assert(0 <= w < k + 1);
                }
            }
            assert(partial == tree_partial(ts, k + 1, root, classes, links, pages@, complete)) by {
                if tree_partial(ts, k + 1, root, classes, links, pages@, complete) {
                    let w = choose|w: int|
                        0 <= w < k + 1 && is_tree((#[trigger] ts[w])@, root) && traversal_partial(ts[w]@, classes, links, pages@, complete);
                    assert(w != k);
                }
                if partial {
                    let w = choose|w: int|
                        0 <= w < k && is_tree((#[trigger] ts[w])@, root) && traversal_partial(ts[w]@, classes, links, pages@, complete);
                    assert(0 <= w < k + 1);
                }
            }
        }
        k = k + 1;
    }
    Ok(TreeRoot { root, partial, pages: members })
}


/// The distinct roots of the tree traversals, in order of first appearance.
fn tree_roots(ts: &Vec<Traversal>) -> (roots: Vec<u32>)
    ensures
        forall|i: int, j: int| 0 <= i < j < roots@.len() ==> (#[trigger] roots@[i]) != (#[trigger] roots@[j]),
        forall|i: int| 0 <= i < roots@.len() ==> has_tree(ts@, ts@.len() as int, #[trigger] roots@[i]),
        forall|r: u32| #[trigger] has_tree(ts@, ts@.len() as int, r) ==> roots@.contains(r),
{
    let mut roots: Vec<u32> = Vec::new();
    let mut k: usize = 0;
    while k < ts.len()
        invariant
            k <= ts@.len(),
            forall|i: int, j: int| 0 <= i < j < roots@.len() ==> (#[trigger] roots@[i]) != (#[trigger] roots@[j]),
            forall|i: int| 0 <= i < roots@.len() ==> has_tree(ts@, k as int, #[trigger] roots@[i]),
            forall|r: u32| #[trigger] has_tree(ts@, k as int, r) ==> roots@.contains(r),
        decreases ts@.len() - k,
    {
        let t = &ts[k];
        let ghost before = roots@;
        if t.kind == TraversalKind::Btree {
            let root = crate::topology::source_page(&t.origin);
            let mut i: usize = 0;
            while i < roots.len() && roots[i] != root
                invariant
                    i <= roots@.len(),
                    roots@ == before,
                    forall|j: int| 0 <= j < i ==> roots@[j] != root,
                decreases roots@.len() - i,
            {
                i = i + 1;
            }
            if i == roots.len() {
                roots.push(root);
                assert(roots@[before.len() as int] == root);
                assert forall|x: int, y: int| 0 <= x < y < roots@.len() implies (#[trigger] roots@[x]) != (#[trigger] roots@[y]) by {
                    if y == before.len() {
                        assert(roots@[x] == before[x]);
                    } else {
                        assert(roots@[x] == before[x] && roots@[y] == before[y]);
                    }
                }
            } else {
                assert(roots@[i as int] == root);
            }
            assert(is_tree(ts@[k as int]@, root));
            assert(roots@.contains(root));
        }
        assert forall|x: int| 0 <= x < roots@.len() implies has_tree(ts@, k + 1, #[trigger] roots@[x]) by {
            if x < before.len() {
                assert(roots@[x] == before[x]);
                assert(has_tree(ts@, k as int, before[x]));
                let w = choose|w: int| 0 <= w < k && is_tree((#[trigger] ts@[w])@, before[x]);
                assert(0 <= w < k + 1);
            } else {
                assert(is_tree(ts@[k as int]@, roots@[x]));
            }
        }
        assert forall|r: u32| #[trigger] has_tree(ts@, k + 1, r) implies roots@.contains(r) by {
            let w = choose|w: int| 0 <= w < k + 1 && is_tree((#[trigger] ts@[w])@, r);
            if w < k {
                assert(has_tree(ts@, k as int, r));
                assert(before.contains(r));
                let x = choose|x: int| 0 <= x < before.len() && before[x] == r;
                assert(roots@[x] == r);
            }
        }
        k = k + 1;
    }
    roots
}

/// Some of the first `upto` claims is a B-tree claim naming page `p` as a child.
pub open spec fn claimed_before(claims: Seq<RelationshipClaim>, p: u32, upto: int) -> bool {
    exists|j: int|
        0 <= j < upto && (#[trigger] claims[j]).kind == RelationshipKind::BtreeChild
            && claims[j].target == Some(PageIdentity { page_number: p })
}

/// Every page that some B-tree claim names as a child.
fn claim_targets(claims: &Vec<RelationshipClaim>) -> (targets: Vec<u32>)
    ensures
        forall|p: u32| targets@.contains(p) <==> child_target(claims@, p),
{
    let mut targets: Vec<u32> = Vec::new();
    let mut i: usize = 0;
    while i < claims.len()
        invariant
            i <= claims@.len(),
            forall|p: u32| #[trigger] targets@.contains(p) <==> claimed_before(claims@, p, i as int),
        decreases claims@.len() - i,
    {
        let claim = &claims[i];
        let ghost before = targets@;
        let mut pushed = false;
        if claim.kind == RelationshipKind::BtreeChild {
            if let Some(target) = claim.target {
                targets.push(target.page_number);
                pushed = true;
            }
        }
        assert forall|p: u32| #[trigger] targets@.contains(p) <==> claimed_before(claims@, p, i + 1) by {
            assert(before.contains(p) <==> claimed_before(claims@, p, i as int));
            if claimed_before(claims@, p, i as int) {
                let j = choose|j: int|
                    0 <= j < i && (#[trigger] claims@[j]).kind == RelationshipKind::BtreeChild
                        && claims@[j].target == Some(PageIdentity { page_number: p });
                assert(0 <= j < i + 1);
            }
            if claimed_before(claims@, p, i + 1) && !claimed_before(claims@, p, i as int) {
                let j = choose|j: int|
                    0 <= j < i + 1 && (#[trigger] claims@[j]).kind == RelationshipKind::BtreeChild
                        && claims@[j].target == Some(PageIdentity { page_number: p });
                assert(j == i);
                assert(pushed);
                assert(targets@[before.len() as int] == p);
            }
            if before.contains(p) {
                let x = choose|x: int| 0 <= x < before.len() && before[x] == p;
                assert(targets@[x] == p);
            }
            if targets@.contains(p) {
                let x = choose|x: int| 0 <= x < targets@.len() && targets@[x] == p;
                if x < before.len() {
                    assert(before[x] == p);
                } else {
                    assert(claims@[i as int].target == Some(PageIdentity { page_number: p }));
                }
            }
        }
        i = i + 1;
    }
    targets
}

/// Indexes the storage trees that the B-tree traversals reached, as final
/// reconciliation leaves them: each tree's usable pages, and whether it is
/// only partly known.
pub fn index_trees(topology: &Topology, pages: &Vec<PageEntity>, control: &mut WorkControl) -> (r: Result<TreeIndex, SchemaDiagnostic>)
    ensures
        control_kept(*old(control), *final(control)),
        same_phase(*old(control), *final(control)),
        r matches Ok(index) ==> {
            &&& indexes_trees(
                index.roots@,
                topology.traversals@,
                topology.classifications@,
                topology.relationships@,
                pages@,
                topology.coverage.reason == TopologyCoverageReason::Complete,
            )
            &&& trees_inventoried(topology.traversals@, topology.classifications@, topology.relationships@, pages@)
            &&& forall|p: u32| index.child_targets@.contains(p) <==> child_target(topology.claims@, p)
        },
        r == Err::<TreeIndex, SchemaDiagnostic>(SchemaDiagnostic::StorageUnavailable)
            ==> !trees_inventoried(topology.traversals@, topology.classifications@, topology.relationships@, pages@),
        r is Err && r != Err::<TreeIndex, SchemaDiagnostic>(SchemaDiagnostic::StorageUnavailable) ==> final(control).is_stopped(),
        !final(control).is_stopped() ==> (r is Ok <==> trees_inventoried(
            topology.traversals@,
            topology.classifications@,
            topology.relationships@,
            pages@,
        )),
{
    if let Err(e) = check_stop(control) {
        return Err(e);
    }
    let ghost ts = topology.traversals@;
    let ghost classes = topology.classifications@;
    let ghost links = topology.relationships@;
    let ghost complete = topology.coverage.reason == TopologyCoverageReason::Complete;
    let child_targets = claim_targets(&topology.claims);
    let ids = tree_roots(&topology.traversals);
    let mut roots: Vec<TreeRoot> = Vec::new();
    let mut i: usize = 0;
    while i < ids.len()
        invariant
            ts == topology.traversals@,
            classes == topology.classifications@,
            links == topology.relationships@,
            complete == (topology.coverage.reason == TopologyCoverageReason::Complete),
            forall|a: int, b: int| 0 <= a < b < ids@.len() ==> (#[trigger] ids@[a]) != (#[trigger] ids@[b]),
            forall|a: int| 0 <= a < ids@.len() ==> has_tree(ts, ts.len() as int, #[trigger] ids@[a]),
            forall|q: u32| #[trigger] has_tree(ts, ts.len() as int, q) ==> ids@.contains(q),
            i <= ids@.len(),
            roots@.len() == i,
            forall|a: int| 0 <= a < i ==> (#[trigger] roots@[a]).root == ids@[a],
            forall|a: int| 0 <= a < i ==> describes_tree(#[trigger] roots@[a], ts, ts.len() as int, classes, links, pages@, complete),
            forall|a: int, k: int|
                0 <= a < i && 0 <= k < ts.len() && is_tree((#[trigger] ts[k])@, #[trigger] ids@[a])
                    ==> usable_inventoried(ts[k]@, classes, links, pages@),
            control_kept(*old(control), *control),
            same_phase(*old(control), *control),
        decreases ids@.len() - i,
    {
        let tree = match collect_tree(topology, pages, ids[i], control) {
            Ok(tree) => tree,
            Err(e) => {
                proof {
                    if e == SchemaDiagnostic::StorageUnavailable {
                        let k = choose|k: int|
                            0 <= k < ts.len() && is_tree((#[trigger] ts[k])@, ids@[i as int])
                                && !usable_inventoried(ts[k]@, classes, links, pages@);
                        assert(ts[k]@.kind == TraversalKind::Btree);
                    }
                }
                return Err(e);
            },
        };
        roots.push(tree);
        i = i + 1;
    }
    proof {
        assert forall|k: int| 0 <= k < ts.len() && (#[trigger] ts[k])@.kind == TraversalKind::Btree implies usable_inventoried(ts[k]@, classes, links, pages@) by {
            let q = spec_source_page(ts[k]@.origin);
            assert(is_tree(ts[k]@, q));
            assert(has_tree(ts, ts.len() as int, q));
            assert(ids@.contains(q));
            let a = choose|a: int| 0 <= a < ids@.len() && ids@[a] == q;
            assert(is_tree(ts[k]@, ids@[a]));
        }
        assert forall|q: u32| has_tree(ts, ts.len() as int, q) implies exists|a: int| 0 <= a < roots@.len() && (#[trigger] roots@[a]).root == q by {
            assert(ids@.contains(q));
            let a = choose|a: int| 0 <= a < ids@.len() && ids@[a] == q;
            assert(roots@[a].root == q);
        }
        assert forall|a: int, b: int| 0 <= a < b < roots@.len() implies (#[trigger] roots@[a]).root != (#[trigger] roots@[b]).root by {
            assert(ids@[a] != ids@[b]);
        }
    }
    Ok(TreeIndex { roots, child_targets })
}


/// The page number the root column names, when it fits one.
pub open spec fn root_number(root_page: Option<i64>) -> Option<u32> {
    match root_page {
        Some(v) => if 0 <= v <= u32::MAX {
            Some(v as u32)
        } else {
            None
        },
        None => None,
    }
}

fn root_of(root_page: Option<i64>) -> (r: Option<u32>)
    ensures
        r == root_number(root_page),
{
    match root_page {
        Some(v) => if 0 <= v && v <= u32::MAX as i64 {
            Some(v as u32)
        } else {
            None
        },
        None => None,
    }
}

/// A table whose declaration creates a virtual table.
pub open spec fn virtual_declaration(o: SchemaObject) -> bool {
    &&& o.object_type == Some(SchemaObjectType::Table)
    &&& o.declaration matches Some(d) && spec_virtual_table(d@)
}

/// An object that owns no storage: a view, a trigger or a virtual table,
/// whose root column is missing or zero.
pub open spec fn declaration_only(o: SchemaObject) -> bool {
    &&& o.object_type is Some
    &&& o.root_page is None || o.root_page == Some(0i64)
    &&& o.object_type == Some(SchemaObjectType::View) || o.object_type == Some(SchemaObjectType::Trigger)
        || virtual_declaration(o)
}

/// Whether an object of type `kind` may be rooted at a page of role `role`.
pub open spec fn root_accepts(kind: SchemaObjectType, role: PageRole) -> bool {
    ||| kind == SchemaObjectType::Table
    ||| kind == SchemaObjectType::Index && (role == PageRole::IndexLeaf || role == PageRole::IndexInterior)
}

/// The root an object may claim: a page past the first, that reconciled as a
/// B-tree page fit for the object's type, and that no B-tree claim names as a child.
pub open spec fn valid_root(o: SchemaObject, classes: Seq<PageClassification>, claims: Seq<RelationshipClaim>) -> Option<u32> {
    match (root_number(o.root_page), o.object_type) {
        (Some(r), Some(kind)) => if r > 1 && (spec_btree_role(classes, r) matches Some(role) && root_accepts(kind, role))
            && !child_target(claims, r) {
            Some(r)
        } else {
            None
        },
        _ => None,
    }
}

/// No two entries of `index` share a root.
pub open spec fn distinct_roots(index: Seq<TreeRoot>) -> bool {
    forall|i: int, j: int| 0 <= i < j < index.len() ==> (#[trigger] index[i]).root != (#[trigger] index[j]).root
}

/// Entry `i` of `index` is the tree at `r`, and holds `r` itself.
pub open spec fn holds_root(index: Seq<TreeRoot>, i: int, r: u32) -> bool {
    0 <= i < index.len() && index[i].root == r && index[i].pages@.contains(r)
}

pub open spec fn page_ids(pages: Seq<u32>) -> Seq<PageIdentity> {
    pages.map_values(|p: u32| PageIdentity { page_number: p })
}

/// `b` keeps the decoded columns of `a`.
pub open spec fn keeps_columns(a: SchemaObject, b: SchemaObject) -> bool {
    &&& b.identity == a.identity
    &&& b.evidence@ == a.evidence@
    &&& b.object_type == a.object_type
    &&& b.name == a.name
    &&& b.table_name == a.table_name
    &&& b.root_page == a.root_page
    &&& b.declaration == a.declaration
}

/// `b` is `a` with diagnostic `d` added and nothing else changed.
pub open spec fn only_noted(a: SchemaObject, b: SchemaObject, d: SchemaDiagnostic) -> bool {
    &&& keeps_columns(a, b)
    &&& b.root == a.root
    &&& b.pages@ == a.pages@
    &&& b.attributed_through == a.attributed_through
    &&& b.state == a.state
    &&& b.diagnostics@ == a.diagnostics@.push(d)
}

/// `b` is `a` attributed to the whole of `tree`.
pub open spec fn attributed_to(a: SchemaObject, b: SchemaObject, tree: TreeRoot) -> bool {
    &&& keeps_columns(a, b)
    &&& b.root == Some(PageIdentity { page_number: tree.root })
    &&& b.pages@ == page_ids(tree.pages@)
    &&& b.attributed_through == (if tree.pages@.len() == 0 { None } else { Some(tree.pages@.last()) })
    &&& b.state == (if tree.partial { SchemaState::Partial } else { SchemaState::Complete })
    &&& b.diagnostics@ == (if tree.partial { a.diagnostics@.push(SchemaDiagnostic::AttributionPartial) } else { a.diagnostics@ })
}

/// What attribution makes of `a` when no stop intervenes.
pub open spec fn attributes(a: SchemaObject, b: SchemaObject, classes: Seq<PageClassification>, index: Seq<TreeRoot>, claims: Seq<RelationshipClaim>) -> bool {
    if a.object_type is None {
        b == a
    } else if declaration_only(a) {
        b == (SchemaObject { state: SchemaState::DeclarationOnly, ..a })
    } else if virtual_declaration(a) {
        only_noted(a, b, SchemaDiagnostic::VirtualRootInvalid)
    } else {
        attribution(a, b, classes, index, claims)
    }
}

/// What attribution makes of `a`, once it is neither declaration-only nor virtual.
pub open spec fn attribution(a: SchemaObject, b: SchemaObject, classes: Seq<PageClassification>, index: Seq<TreeRoot>, claims: Seq<RelationshipClaim>) -> bool {
    match valid_root(a, classes, claims) {
        Some(r) => if exists|i: int| holds_root(index, i, r) {
            forall|i: int| holds_root(index, i, r) ==> attributed_to(a, b, #[trigger] index[i])
        } else {
            only_noted(a, b, SchemaDiagnostic::RootUnavailable)
        },
        None => only_noted(a, b, SchemaDiagnostic::RootUnavailable),
    }
}

/// Whether some entry of `pages` is `p`.
fn holds_page(pages: &Vec<u32>, p: u32) -> (r: bool)
    ensures
        r == pages@.contains(p),
{
    let mut i: usize = 0;
    while i < pages.len()
        invariant
            i <= pages@.len(),
            forall|j: int| 0 <= j < i ==> pages@[j] != p,
        decreases pages@.len() - i,
    {
        if pages[i] == p {
            assert(pages@[i as int] == p);
            return true;
        }
        i = i + 1;
    }
    false
}

/// The entry of `index` that is the tree at `r` and holds `r`, if any.
fn find_tree(index: &Vec<TreeRoot>, r: u32) -> (found: Option<usize>)
    ensures
        found matches Some(i) ==> holds_root(index@, i as int, r),
        found is None ==> forall|i: int| !holds_root(index@, i, r),
{
    let mut i: usize = 0;
    while i < index.len()
        invariant
            i <= index@.len(),
            forall|j: int| 0 <= j < i ==> !holds_root(index@, j, r),
        decreases index@.len() - i,
    {
        if index[i].root == r && holds_page(&index[i].pages, r) {
            return Some(i);
        }
        i = i + 1;
    }
    None
}

/// Attributes a decoded schema object to the storage tree its root column
/// names, when the root is a valid tree root; declaration-only objects get
/// no storage.
pub fn attribute(object: &mut SchemaObject, topology: &Topology, trees: &TreeIndex, control: &mut WorkControl)
    requires
        distinct_roots(trees.roots@),
        forall|p: u32| trees.child_targets@.contains(p) <==> child_target(topology.claims@, p),
    ensures
        control_kept(*old(control), *final(control)),
        same_phase(*old(control), *final(control)),
        keeps_columns(*old(object), *final(object)),
        old(object).object_type is None ==> *final(object) == *old(object),
        declaration_only(*old(object)) ==> *final(object) == (SchemaObject { state: SchemaState::DeclarationOnly, ..*old(object) }),
        !declaration_only(*old(object)) && virtual_declaration(*old(object))
            ==> only_noted(*old(object), *final(object), SchemaDiagnostic::VirtualRootInvalid),
        old(object).object_type is Some && !declaration_only(*old(object)) && !virtual_declaration(*old(object))
            && !final(control).is_stopped() ==> attribution(
            *old(object),
            *final(object),
            topology.classifications@,
            trees.roots@,
            topology.claims@,
        ),
        !final(control).is_stopped() ==> attributes(
            *old(object),
            *final(object),
            topology.classifications@,
            trees.roots@,
            topology.claims@,
        ),
{
    let kind = match object.object_type {
        Some(kind) => kind,
        None => return,
    };
    let virtual_decl = kind == SchemaObjectType::Table && match &object.declaration {
        Some(d) => virtual_table(d.as_str()),
        None => false,
    };
    let root = root_of(object.root_page);
    let unrooted = match object.root_page {
        Some(v) => v == 0,
        None => true,
    };
    if unrooted && (kind == SchemaObjectType::View || kind == SchemaObjectType::Trigger || virtual_decl) {
        object.state = SchemaState::DeclarationOnly;
        return;
    }
    if virtual_decl {
        object.diagnostics.push(SchemaDiagnostic::VirtualRootInvalid);
        return;
    }
    let valid = match root {
        Some(r) => {
            let fits = match btree_role(topology, r) {
                Some(role) => kind == SchemaObjectType::Table || (kind == SchemaObjectType::Index
                    && (role == PageRole::IndexLeaf || role == PageRole::IndexInterior)),
                None => false,
            };
            if r > 1 && fits && !holds_page(&trees.child_targets, r) {
                Some(r)
            } else {
                None
            }
        },
        None => None,
    };
    assert(valid == valid_root(*old(object), topology.classifications@, topology.claims@));
    if let Err(code) = check_stop(control) {
        object.diagnostics.push(code);
        return;
    }
    let r = match valid {
        Some(r) => r,
        None => {
            object.diagnostics.push(SchemaDiagnostic::RootUnavailable);
            return;
        },
    };
    let i = match find_tree(&trees.roots, r) {
        Some(i) => i,
        None => {
            object.diagnostics.push(SchemaDiagnostic::RootUnavailable);
            return;
        },
    };
    let tree = &trees.roots[i];
    object.root = Some(PageIdentity { page_number: r });
    let mut attributed: Vec<PageIdentity> = Vec::new();
    let mut k: usize = 0;
    while k < tree.pages.len()
        invariant
            k <= tree.pages@.len(),
            attributed@ == page_ids(tree.pages@.take(k as int)),
            object.attributed_through == (if k == 0 { old(object).attributed_through } else { Some(tree.pages@[k - 1]) }),
            keeps_columns(*old(object), *object),
            object.root == Some(PageIdentity { page_number: r }),
            old(object).object_type is Some,
            !declaration_only(*old(object)),
            !virtual_declaration(*old(object)),
            object.state == old(object).state,
            object.diagnostics@ == old(object).diagnostics@,
            control_kept(*old(control), *control),
            same_phase(*old(control), *control),
        decreases tree.pages@.len() - k,
    {
        if let Err(code) = check_stop(control) {
            object.state = SchemaState::Partial;
            object.diagnostics.push(code);
            object.pages = attributed;
            return;
        }
        let number = tree.pages[k];
        attributed.push(PageIdentity { page_number: number });
        assert(tree.pages@.take(k + 1) =~= tree.pages@.take(k as int).push(number));
        assert(attributed@ =~= page_ids(tree.pages@.take(k + 1)));
        object.attributed_through = Some(number);
        k = k + 1;
    }
    assert(tree.pages@.take(k as int) =~= tree.pages@);
    object.pages = attributed;
    if tree.partial {
        object.state = SchemaState::Partial;
        object.diagnostics.push(SchemaDiagnostic::AttributionPartial);
    } else {
        object.state = SchemaState::Complete;
    }
    proof {
        assert(tree.pages@.contains(r));
        assert forall|j: int| holds_root(trees.roots@, j, r) implies attributed_to(*old(object), *object, #[trigger] trees.roots@[j]) by {
            if j != i {
                assert(trees.roots@[i as int].root != trees.roots@[j].root);
            }
        }
    }
}


/// What schema inspection found: the objects of the schema table in cell
/// order, and the decode allowance with how much of it was spent.
pub struct SchemaEvidence {
    pub state: SchemaState,
    pub objects: Vec<SchemaObject>,
    pub diagnostics: Vec<SchemaDiagnostic>,
    pub max_decoded_bytes: u64,
    pub decoded_bytes: u64,
    /// The cell at which decoding stopped early, if it did.
    pub stopping_cell: Option<CellIdentity>,
}

/// How many payload bytes schema decoding may read in all.
pub struct SchemaBudget {
    pub max_decoded_bytes: u64,
}

impl SchemaBudget {
    pub const DEFAULT_MAX_DECODED_BYTES: u64 = 16777216;
}

impl Default for SchemaBudget {
    /// Sixteen mebibytes of decoded payload.
    fn default() -> (r: Self)
        ensures
            r.max_decoded_bytes == Self::DEFAULT_MAX_DECODED_BYTES,
    {
        SchemaBudget { max_decoded_bytes: Self::DEFAULT_MAX_DECODED_BYTES }
    }
}

impl SchemaEvidence {
    /// The evidence of a file whose schema tree could not be found.
    pub fn unavailable(budget: SchemaBudget) -> (r: Self)
        ensures
            r.state == SchemaState::Unavailable,
            r.objects@.len() == 0,
            r.diagnostics@ == seq![SchemaDiagnostic::BtreeUnavailable],
            r.max_decoded_bytes == budget.max_decoded_bytes,
            r.decoded_bytes == 0,
            r.stopping_cell is None,
    {
        SchemaEvidence {
            state: SchemaState::Unavailable,
            objects: Vec::new(),
            diagnostics: vec![SchemaDiagnostic::BtreeUnavailable],
            max_decoded_bytes: budget.max_decoded_bytes,
            decoded_bytes: 0,
            stopping_cell: None,
        }
    }
}

/// The roots past the first that the objects' root columns name, in object order.
pub open spec fn claimed_roots(objects: Seq<SchemaObject>) -> Seq<u32>
    decreases objects.len(),
{
    if objects.len() == 0 {
        seq![]
    } else {
        let rest = claimed_roots(objects.drop_last());
        match root_number(objects.last().root_page) {
            Some(r) => if r > 1 {
                rest.push(r)
            } else {
                rest
            },
            None => rest,
        }
    }
}

pub open spec fn count_of(s: Seq<u32>, r: u32) -> nat
    decreases s.len(),
{
    if s.len() == 0 {
        0
    } else {
        count_of(s.drop_last(), r) + if s.last() == r {
            1nat
        } else {
            0nat
        }
    }
}

/// `o` names a root past the first that another object of `objects` names too.
pub open spec fn conflicting(o: SchemaObject, objects: Seq<SchemaObject>) -> bool {
    root_number(o.root_page) matches Some(r) && r > 1 && count_of(claimed_roots(objects), r) > 1
}

/// `b` is `a` withheld for a root that another object claims too.
pub open spec fn withheld(a: SchemaObject, b: SchemaObject) -> bool {
    &&& keeps_columns(a, b)
    &&& b.root == a.root
    &&& b.pages@ == a.pages@
    &&& b.attributed_through == a.attributed_through
    &&& b.state == SchemaState::Unavailable
    &&& b.diagnostics@ == a.diagnostics@.push(SchemaDiagnostic::RootConflicting)
}

/// What reconciliation makes of object `a` of `objects`.
pub open spec fn reconciled(a: SchemaObject, b: SchemaObject, objects: Seq<SchemaObject>, classes: Seq<PageClassification>, index: Seq<TreeRoot>, claims: Seq<RelationshipClaim>) -> bool {
    if conflicting(a, objects) {
        withheld(a, b)
    } else {
        attributes(a, b, classes, index, claims)
    }
}

pub open spec fn incomplete(state: SchemaState) -> bool {
    state == SchemaState::Partial || state == SchemaState::Unavailable
}

proof fn lemma_count_bounds(s: Seq<u32>, r: u32)
    ensures
        count_of(s, r) <= s.len(),
    decreases s.len(),
{
    if s.len() > 0 {
        lemma_count_bounds(s.drop_last(), r);
    }
}

proof fn lemma_claimed_len(objects: Seq<SchemaObject>)
    ensures
        claimed_roots(objects).len() <= objects.len(),
    decreases objects.len(),
{
    if objects.len() > 0 {
        lemma_claimed_len(objects.drop_last());
    }
}

/// The roots claimed by the first `i` objects, as `claimed_roots` counts them.
fn roots_claimed(objects: &Vec<SchemaObject>, control: &mut WorkControl) -> (r: Result<Vec<u32>, SchemaDiagnostic>)
    ensures
        control_kept(*old(control), *final(control)),
        same_phase(*old(control), *final(control)),
        r matches Ok(claimed) ==> claimed@ == claimed_roots(objects@),
        r is Err ==> final(control).is_stopped(),
{
    let mut claimed: Vec<u32> = Vec::new();
    let mut i: usize = 0;
    while i < objects.len()
        invariant
            i <= objects@.len(),
            claimed@ == claimed_roots(objects@.take(i as int)),
            control_kept(*old(control), *control),
            same_phase(*old(control), *control),
        decreases objects@.len() - i,
    {
        if let Err(e) = check_stop(control) {
            return Err(e);
        }
        assert(objects@.take(i + 1).drop_last() =~= objects@.take(i as int));
        if let Some(r) = root_of(objects[i].root_page) {
            if r > 1 {
                claimed.push(r);
            }
        }
        i = i + 1;
    }
    assert(objects@.take(i as int) =~= objects@);
    Ok(claimed)
}

/// How many entries of `s` are `r`.
fn count_in(s: &Vec<u32>, r: u32) -> (n: usize)
    ensures
        n == count_of(s@, r),
{
    let mut n: usize = 0;
    let mut i: usize = 0;
    while i < s.len()
        invariant
            i <= s@.len(),
            n == count_of(s@.take(i as int), r),
        decreases s@.len() - i,
    {
        assert(s@.take(i + 1).drop_last() =~= s@.take(i as int));
        proof {
            lemma_count_bounds(s@.take(i as int), r);
        }
        if s[i] == r {
            n = n + 1;
        }
        i = i + 1;
    }
    assert(s@.take(i as int) =~= s@);
    n
}


/// An object with no columns, no storage and no diagnostics.
fn blank_object() -> (o: SchemaObject)
    ensures
        o.identity == (CellIdentity { page_number: 0, index: 0 }),
        o.evidence@.len() == 0,
        o.object_type is None,
        o.name is None,
        o.table_name is None,
        o.root_page is None,
        o.declaration is None,
        o.root is None,
        o.pages@.len() == 0,
        o.attributed_through is None,
        o.state == SchemaState::Unavailable,
        o.diagnostics@.len() == 0,
{
    SchemaObject {
        identity: CellIdentity { page_number: 0, index: 0 },
        evidence: Vec::new(),
        object_type: None,
        name: None,
        table_name: None,
        root_page: None,
        declaration: None,
        root: None,
        pages: Vec::new(),
        attributed_through: None,
        state: SchemaState::Unavailable,
        diagnostics: Vec::new(),
    }
}

/// Marks the schema partial for a stop, reporting the stop once.
fn note_stop(evidence: &mut SchemaEvidence, code: SchemaDiagnostic)
    ensures
        final(evidence).state == SchemaState::Partial,
        final(evidence).objects@ == old(evidence).objects@,
        final(evidence).diagnostics@ == (if old(evidence).diagnostics@.contains(code) {
            old(evidence).diagnostics@
        } else {
            old(evidence).diagnostics@.push(code)
        }),
        final(evidence).max_decoded_bytes == old(evidence).max_decoded_bytes,
        final(evidence).decoded_bytes == old(evidence).decoded_bytes,
        final(evidence).stopping_cell == old(evidence).stopping_cell,
{
    evidence.state = SchemaState::Partial;
    let mut i: usize = 0;
    while i < evidence.diagnostics.len()
        invariant
            evidence.state == SchemaState::Partial,
            evidence.objects@ == old(evidence).objects@,
            evidence.diagnostics@ == old(evidence).diagnostics@,
            evidence.max_decoded_bytes == old(evidence).max_decoded_bytes,
            evidence.decoded_bytes == old(evidence).decoded_bytes,
            evidence.stopping_cell == old(evidence).stopping_cell,
            i <= evidence.diagnostics@.len(),
            forall|j: int| 0 <= j < i ==> evidence.diagnostics@[j] != code,
        decreases evidence.diagnostics@.len() - i,
    {
        if evidence.diagnostics[i] == code {
            assert(evidence.diagnostics@[i as int] == code);
            return;
        }
        i = i + 1;
    }
    evidence.diagnostics.push(code);
}

/// Withholds every root that two objects claim, and attributes the other
/// objects to their trees. The schema becomes partial when any object ends
/// partial or unavailable.
pub fn reconcile_attribution(evidence: &mut SchemaEvidence, topology: &Topology, trees: &TreeIndex, control: &mut WorkControl)
    requires
        distinct_roots(trees.roots@),
        forall|p: u32| trees.child_targets@.contains(p) <==> child_target(topology.claims@, p),
    ensures
        control_kept(*old(control), *final(control)),
        same_phase(*old(control), *final(control)),
        final(evidence).objects@.len() == old(evidence).objects@.len(),
        final(evidence).max_decoded_bytes == old(evidence).max_decoded_bytes,
        final(evidence).decoded_bytes == old(evidence).decoded_bytes,
        final(evidence).stopping_cell == old(evidence).stopping_cell,
        forall|i: int| 0 <= i < old(evidence).objects@.len() ==> keeps_columns(old(evidence).objects@[i], #[trigger] final(evidence).objects@[i]),
        !final(control).is_stopped() ==> {
            &&& forall|i: int| 0 <= i < old(evidence).objects@.len() ==> reconciled(
                old(evidence).objects@[i],
                #[trigger] final(evidence).objects@[i],
                old(evidence).objects@,
                topology.classifications@,
                trees.roots@,
                topology.claims@,
            )
            &&& final(evidence).diagnostics@ == old(evidence).diagnostics@
            &&& final(evidence).state == (if exists|i: int| 0 <= i < final(evidence).objects@.len() && incomplete((#[trigger] final(evidence).objects@[i]).state) {
                SchemaState::Partial
            } else {
                old(evidence).state
            })
        },
{
    let ghost olds = evidence.objects@;
    let ghost classes = topology.classifications@;
    let claimed = match roots_claimed(&evidence.objects, control) {
        Ok(claimed) => claimed,
        Err(code) => {
            note_stop(evidence, code);
            assert forall|i: int| 0 <= i < olds.len() implies keeps_columns(olds[i], #[trigger] evidence.objects@[i]) by {}
            return;
        },
    };
    let ghost start_state = evidence.state;
    let n = evidence.objects.len();
    let mut i: usize = 0;
    while i < n
        invariant
            n == olds.len(),
            claimed@ == claimed_roots(olds),
            classes == topology.classifications@,
            distinct_roots(trees.roots@),
            forall|p: u32| trees.child_targets@.contains(p) <==> child_target(topology.claims@, p),
            i <= n,
            evidence.objects@.len() == n,
            evidence.max_decoded_bytes == old(evidence).max_decoded_bytes,
            evidence.decoded_bytes == old(evidence).decoded_bytes,
            evidence.stopping_cell == old(evidence).stopping_cell,
            evidence.diagnostics@ == old(evidence).diagnostics@,
            start_state == old(evidence).state,
            olds == old(evidence).objects@,
            forall|j: int| 0 <= j < n ==> keeps_columns(olds[j], #[trigger] evidence.objects@[j]),
            forall|j: int| i <= j < n ==> #[trigger] evidence.objects@[j] == olds[j],
            !control.is_stopped() ==> forall|j: int|
                0 <= j < i ==> reconciled(olds[j], #[trigger] evidence.objects@[j], olds, classes, trees.roots@, topology.claims@),
            evidence.state == (if exists|j: int| 0 <= j < i && incomplete((#[trigger] evidence.objects@[j]).state) {
                SchemaState::Partial
            } else {
                start_state
            }),
            control_kept(*old(control), *control),
            same_phase(*old(control), *control),
        decreases n - i,
    {
        if let Err(code) = check_stop(control) {
            note_stop(evidence, code);
            return;
        }
        let ghost before = evidence.objects@;
        let ghost was = evidence.state;
        let mut object = blank_object();
        std::mem::swap(&mut object, &mut evidence.objects[i]);
        assert(object == olds[i as int]);
        assert forall|j: int| 0 <= j < n && j != i implies #[trigger] evidence.objects@[j] == before[j] by {}
        let conflict = match root_of(object.root_page) {
            Some(r) => r > 1 && count_in(&claimed, r) > 1,
            None => false,
        };
        if conflict {
            object.state = SchemaState::Unavailable;
            object.diagnostics.push(SchemaDiagnostic::RootConflicting);
        } else {
            attribute(&mut object, topology, trees, control);
        }
        let bad = object.state == SchemaState::Partial || object.state == SchemaState::Unavailable;
        evidence.objects.set(i, object);
        if bad {
            evidence.state = SchemaState::Partial;
        }
        proof {
            assert forall|j: int| 0 <= j < n && j != i implies #[trigger] evidence.objects@[j] == before[j] by {}
            if !control.is_stopped() {
                assert(reconciled(olds[i as int], evidence.objects@[i as int], olds, classes, trees.roots@, topology.claims@));
            }
            assert(was == (if exists|j: int| 0 <= j < i && incomplete((#[trigger] before[j]).state) {
                SchemaState::Partial
            } else {
                start_state
            }));
            if exists|j: int| 0 <= j < i && incomplete((#[trigger] before[j]).state) {
                let j = choose|j: int| 0 <= j < i && incomplete((#[trigger] before[j]).state);
                assert(evidence.objects@[j] == before[j]);
                assert(incomplete(evidence.objects@[j].state));
            }
            if bad {
                assert(incomplete(evidence.objects@[i as int].state));
            } else {
                if exists|j: int| 0 <= j < i + 1 && incomplete((#[trigger] evidence.objects@[j]).state) {
                    let j = choose|j: int| 0 <= j < i + 1 && incomplete((#[trigger] evidence.objects@[j]).state);
                    assert(j < i);
                    assert(evidence.objects@[j] == before[j]);
                }
                if exists|j: int| 0 <= j < i && incomplete((#[trigger] before[j]).state) {
                    let j = choose|j: int| 0 <= j < i && incomplete((#[trigger] before[j]).state);
                    assert(evidence.objects@[j] == before[j]);
                }
            }
        }
        i = i + 1;
    }
}


proof fn lemma_claim_counted(objects: Seq<SchemaObject>, i: int, r: u32)
    requires
        0 <= i < objects.len(),
        root_number(objects[i].root_page) == Some(r),
        r > 1,
    ensures
        count_of(claimed_roots(objects), r) >= 1,
    decreases objects.len(),
{
    let rest = objects.drop_last();
    if i == objects.len() - 1 {
        assert(claimed_roots(objects) == claimed_roots(rest).push(r));
        assert(claimed_roots(objects).drop_last() =~= claimed_roots(rest));
    } else {
        assert(rest[i] == objects[i]);
        lemma_claim_counted(rest, i, r);
        let c = claimed_roots(objects);
        if c.len() > claimed_roots(rest).len() {
            assert(c.drop_last() =~= claimed_roots(rest));
        }
    }
}

/// Two schema objects that name the same root past the first both have
/// that root withheld: a root claimed twice is attributed to neither claimant.
pub proof fn law_shared_root_withheld(objects: Seq<SchemaObject>, i: int, j: int, r: u32)
    requires
        0 <= i < objects.len(),
        0 <= j < objects.len(),
        i != j,
        root_number(objects[i].root_page) == Some(r),
        root_number(objects[j].root_page) == Some(r),
        r > 1,
    ensures
        conflicting(objects[i], objects),
        conflicting(objects[j], objects),
    decreases objects.len(),
{
    let rest = objects.drop_last();
    let last = objects.len() - 1;
    let c = claimed_roots(objects);
    if i == last || j == last {
        let other = if i == last { j } else { i };
        assert(rest[other] == objects[other]);
        lemma_claim_counted(rest, other, r);
        assert(c == claimed_roots(rest).push(r));
        assert(c.drop_last() =~= claimed_roots(rest));
    } else {
        assert(rest[i] == objects[i] && rest[j] == objects[j]);
        law_shared_root_withheld(rest, i, j, r);
        if c.len() > claimed_roots(rest).len() {
            assert(c.drop_last() =~= claimed_roots(rest));
        }
    }
}

/// An object reconciliation attributes to storage names a valid root in
/// its root column, claimed by no other object, and the tree at that root holds it:
/// only validated roots receive attribution.
pub proof fn law_attribution_needs_valid_root(
    a: SchemaObject,
    b: SchemaObject,
    objects: Seq<SchemaObject>,
    classes: Seq<PageClassification>,
    index: Seq<TreeRoot>,
    claims: Seq<RelationshipClaim>,
    page: PageIdentity,
)
    requires
        reconciled(a, b, objects, classes, index, claims),
        a.root is None,
        b.root == Some(page),
    ensures
        !conflicting(a, objects),
        valid_root(a, classes, claims) == Some(page.page_number),
        spec_btree_role(classes, page.page_number) is Some,
        !child_target(claims, page.page_number),
        exists|i: int| holds_root(index, i, page.page_number),
{
    if let Some(v) = valid_root(a, classes, claims) {
        if exists|i: int| holds_root(index, i, v) {
            let i = choose|i: int| holds_root(index, i, v);
            assert(attributed_to(a, b, index[i]));
        }
    }
}

/// A view, a trigger or a virtual table whose root column is missing or
/// zero is declaration-only: reconciliation attributes no storage to it.
pub proof fn law_declaration_only(
    a: SchemaObject,
    b: SchemaObject,
    objects: Seq<SchemaObject>,
    classes: Seq<PageClassification>,
    index: Seq<TreeRoot>,
    claims: Seq<RelationshipClaim>,
)
    requires
        reconciled(a, b, objects, classes, index, claims),
        declaration_only(a),
    ensures
        b.state == SchemaState::DeclarationOnly,
        b.root == a.root,
        b.pages@ == a.pages@,
        b.diagnostics@ == a.diagnostics@,
{
}


/// The cells of the table-leaf pages among `tree_pages`, in page order.
pub open spec fn schema_cells(pages: Seq<PageEntity>, tree_pages: Seq<u32>) -> Seq<CellDetail>
    decreases tree_pages.len(),
{
    if tree_pages.len() == 0 {
        seq![]
    } else {
        let rest = schema_cells(pages, tree_pages.drop_last());
        let page = pages[tree_pages.last() - 1];
        if page.detail.kind == Some(Kind::TableLeaf) {
            rest + page.detail.cells@
        } else {
            rest
        }
    }
}

/// The payload of schema cell `cell`, read with `remaining` bytes of allowance.
pub open spec fn cell_payload(image: Seq<u8>, geometry: DatabaseGeometry, t: Topology, cell: CellDetail, remaining: u64) -> PayloadOutcome {
    spec_payload(image, geometry, cell@, t.traversals@, t.classifications@, t.relationships@, remaining)
}

/// The decode allowance left before schema cell `k`.
pub open spec fn allowance_before(image: Seq<u8>, geometry: DatabaseGeometry, t: Topology, cells: Seq<CellDetail>, budget: u64, k: int) -> u64
    decreases k,
{
    if k <= 0 {
        budget
    } else {
        cell_payload(image, geometry, t, cells[k - 1], allowance_before(image, geometry, t, cells, budget, k - 1)).remaining
    }
}

/// Schema cell `k` holds more payload than the allowance has left.
pub open spec fn over_allowance(image: Seq<u8>, geometry: DatabaseGeometry, t: Topology, cells: Seq<CellDetail>, budget: u64, k: int) -> bool {
    cells[k]@.payload_size matches Some(size) && size > allowance_before(image, geometry, t, cells, budget, k)
}

/// The first schema cell from `k` on that is over the allowance, or the
/// number of cells when none is.
pub open spec fn first_over(image: Seq<u8>, geometry: DatabaseGeometry, t: Topology, cells: Seq<CellDetail>, budget: u64, k: int) -> int
    decreases cells.len() - k,
{
    if k < 0 || k >= cells.len() {
        cells.len() as int
    } else if over_allowance(image, geometry, t, cells, budget, k) {
        k
    } else {
        first_over(image, geometry, t, cells, budget, k + 1)
    }
}

/// `o` is what decoding schema cell `cell` with `remaining` bytes of allowance gives.
pub open spec fn decoded_object(o: SchemaObject, image: Seq<u8>, geometry: DatabaseGeometry, t: Topology, cell: CellDetail, remaining: u64) -> bool {
    let outcome = cell_payload(image, geometry, t, cell, remaining);
    &&& o.identity == cell.identity
    &&& o.root is None
    &&& o.pages@.len() == 0
    &&& o.attributed_through is None
    &&& o.state == SchemaState::Unavailable
    &&& o.evidence@ == seq![record_evidence(cell@)] + outcome.extents
    &&& match spec_decoded(outcome, geometry) {
        Ok(v) => carries_record(o, v),
        Err(e) => carries_failure(o, e),
    }
}

proof fn lemma_schema_cells_prefix(pages: Seq<PageEntity>, tree_pages: Seq<u32>, p: int, q: int)
    requires
        0 <= p <= q <= tree_pages.len(),
    ensures
        schema_cells(pages, tree_pages.take(p)).is_prefix_of(schema_cells(pages, tree_pages.take(q))),
    decreases q - p,
{
    if p < q {
        lemma_schema_cells_prefix(pages, tree_pages, p, q - 1);
        assert(tree_pages.take(q).drop_last() =~= tree_pages.take(q - 1));
    }
}

proof fn lemma_first_over_bound(image: Seq<u8>, geometry: DatabaseGeometry, t: Topology, cells: Seq<CellDetail>, budget: u64, k: int)
    ensures
        first_over(image, geometry, t, cells, budget, k) <= cells.len(),
        0 <= k ==> k <= first_over(image, geometry, t, cells, budget, k) || k > cells.len(),
    decreases cells.len() - k,
{
    if 0 <= k < cells.len() && !over_allowance(image, geometry, t, cells, budget, k) {
        lemma_first_over_bound(image, geometry, t, cells, budget, k + 1);
    }
}

proof fn lemma_first_over(image: Seq<u8>, geometry: DatabaseGeometry, t: Topology, cells: Seq<CellDetail>, budget: u64, k: int, n: int)
    requires
        0 <= k <= n <= cells.len(),
        forall|j: int| k <= j < n ==> !over_allowance(image, geometry, t, cells, budget, j),
        n == cells.len() || over_allowance(image, geometry, t, cells, budget, n),
    ensures
        first_over(image, geometry, t, cells, budget, k) == n,
    decreases n - k,
{
    if k < n {
        lemma_first_over(image, geometry, t, cells, budget, k + 1, n);
    }
}

/// The allowance before cell `k` depends only on the cells before it.
proof fn lemma_allowance_prefix(image: Seq<u8>, geometry: DatabaseGeometry, t: Topology, a: Seq<CellDetail>, b: Seq<CellDetail>, budget: u64, k: int)
    requires
        0 <= k <= a.len(),
        a.is_prefix_of(b),
    ensures
        allowance_before(image, geometry, t, a, budget, k) == allowance_before(image, geometry, t, b, budget, k),
    decreases k,
{
    if k > 0 {
        lemma_allowance_prefix(image, geometry, t, a, b, budget, k - 1);
        assert(a[k - 1] == b[k - 1]);
    }
}


/// The diagnostic for a stop, if work has been stopped.
fn stop_code(control: &mut WorkControl) -> (r: Option<SchemaDiagnostic>)
    ensures
        control_kept(*old(control), *final(control)),
        same_phase(*old(control), *final(control)),
        r is Some <==> final(control).is_stopped(),
{
    if control.stopped() {
        match control.traversal_reason() {
            Some(TraversalStopReason::OperatorStop) => Some(SchemaDiagnostic::OperatorStop),
            Some(TraversalStopReason::Budget) => Some(SchemaDiagnostic::WorkBudget),
            _ => Some(SchemaDiagnostic::Cancelled),
        }
    } else {
        None
    }
}

/// Decodes the cells of the table-leaf pages among `tree_pages`, in order,
/// until the decode allowance runs short or work stops.
fn decode_cells(
    result: &mut SchemaEvidence,
    reader: &mut PayloadReader,
    pages: &Vec<PageEntity>,
    tree_pages: &Vec<u32>,
    control: &mut WorkControl,
)
    requires
        geometry_wf(*old(reader).geometry),
        old(result).objects@.len() == 0,
        forall|k: int| 0 <= k < tree_pages@.len() ==> 1 <= #[trigger] tree_pages@[k] <= pages@.len(),
    ensures
        control_kept(*old(control), *final(control)),
        same_phase(*old(control), *final(control)),
        final(reader).image == old(reader).image,
        final(reader).geometry == old(reader).geometry,
        final(reader).topology == old(reader).topology,
        final(result).max_decoded_bytes == old(result).max_decoded_bytes,
        final(result).decoded_bytes == old(result).decoded_bytes,
        final(reader).remaining <= old(reader).remaining,
        !final(control).is_stopped() ==> ({
            let cells = schema_cells(pages@, tree_pages@);
            let image = old(reader).image@;
            let geometry = *old(reader).geometry;
            let t = *old(reader).topology;
            let budget = old(reader).remaining;
            let n = first_over(image, geometry, t, cells, budget, 0);
            &&& final(result).objects@.len() == n
            &&& forall|k: int| 0 <= k < n ==> decoded_object(
                #[trigger] final(result).objects@[k],
                image,
                geometry,
                t,
                cells[k],
                allowance_before(image, geometry, t, cells, budget, k),
            )
            &&& final(reader).remaining == allowance_before(image, geometry, t, cells, budget, n)
            &&& n < cells.len() ==> final(result).stopping_cell == Some(cells[n].identity)
                && final(result).diagnostics@ == old(result).diagnostics@.push(SchemaDiagnostic::DecodeBudget)
            &&& n == cells.len() ==> final(result).stopping_cell == old(result).stopping_cell
                && final(result).diagnostics@ == old(result).diagnostics@
            &&& final(result).state == (if n < cells.len() || exists|k: int|
                0 <= k < n && (#[trigger] final(result).objects@[k]).diagnostics@.len() > 0 {
                SchemaState::Partial
            } else {
                old(result).state
            })
        }),
{
    let ghost cells = schema_cells(pages@, tree_pages@);
    let ghost image = reader.image@;
    let ghost geometry = *reader.geometry;
    let ghost t = *reader.topology;
    let ghost budget = reader.remaining;
    let ghost start_state = result.state;
    let mut p: usize = 0;
    while p < tree_pages.len()
        invariant
            geometry_wf(*reader.geometry),
            reader.image@ == image,
            *reader.geometry == geometry,
            *reader.topology == t,
            reader.image == old(reader).image,
            reader.geometry == old(reader).geometry,
            reader.topology == old(reader).topology,
            image == old(reader).image@,
            geometry == *old(reader).geometry,
            t == *old(reader).topology,
            budget == old(reader).remaining,
            start_state == old(result).state,
            cells == schema_cells(pages@, tree_pages@),
            forall|k: int| 0 <= k < tree_pages@.len() ==> 1 <= #[trigger] tree_pages@[k] <= pages@.len(),
            p <= tree_pages@.len(),
            schema_cells(pages@, tree_pages@.take(p as int)).is_prefix_of(cells),
            result.objects@.len() == schema_cells(pages@, tree_pages@.take(p as int)).len(),
            forall|j: int| 0 <= j < result.objects@.len() ==> !over_allowance(image, geometry, t, cells, budget, j),
            reader.remaining == allowance_before(image, geometry, t, cells, budget, result.objects@.len() as int),
            reader.remaining <= budget,
            !control.is_stopped() ==> forall|k: int| 0 <= k < result.objects@.len() ==> decoded_object(
                #[trigger] result.objects@[k],
                image,
                geometry,
                t,
                cells[k],
                allowance_before(image, geometry, t, cells, budget, k),
            ),
            result.stopping_cell == old(result).stopping_cell,
            result.diagnostics@ == old(result).diagnostics@,
            result.max_decoded_bytes == old(result).max_decoded_bytes,
            result.decoded_bytes == old(result).decoded_bytes,
            result.state == (if exists|k: int| 0 <= k < result.objects@.len() && (#[trigger] result.objects@[k]).diagnostics@.len() > 0 {
                SchemaState::Partial
            } else {
                start_state
            }),
            control_kept(*old(control), *control),
            same_phase(*old(control), *control),
        decreases tree_pages@.len() - p,
    {
        if let Some(code) = stop_code(control) {
            result.state = SchemaState::Partial;
            result.diagnostics.push(code);
            return;
        }
        let number = tree_pages[p];
        let page = &pages[(number - 1) as usize];
        let ghost before = schema_cells(pages@, tree_pages@.take(p as int));
        proof {
            lemma_schema_cells_prefix(pages@, tree_pages@, p + 1, tree_pages@.len() as int);
            assert(tree_pages@.take(tree_pages@.len() as int) =~= tree_pages@);
            assert(tree_pages@.take(p + 1).drop_last() =~= tree_pages@.take(p as int));
            assert(tree_pages@.take(p + 1).last() == number);
        }
        if page.detail.kind == Some(Kind::TableLeaf) {
            let ghost after = before + page.detail.cells@;
            assert(schema_cells(pages@, tree_pages@.take(p + 1)) == after);
            let mut c: usize = 0;
            while c < page.detail.cells.len()
                invariant
                    geometry_wf(*reader.geometry),
                    reader.image@ == image,
                    *reader.geometry == geometry,
                    *reader.topology == t,
                    reader.image == old(reader).image,
                    reader.geometry == old(reader).geometry,
                    reader.topology == old(reader).topology,
                    image == old(reader).image@,
                    geometry == *old(reader).geometry,
                    t == *old(reader).topology,
                    budget == old(reader).remaining,
                    cells == schema_cells(pages@, tree_pages@),
                    after == before + page.detail.cells@,
                    after.is_prefix_of(cells),
                    c <= page.detail.cells@.len(),
                    result.objects@.len() == before.len() + c,
                    forall|j: int| 0 <= j < result.objects@.len() ==> !over_allowance(image, geometry, t, cells, budget, j),
                    reader.remaining == allowance_before(image, geometry, t, cells, budget, result.objects@.len() as int),
                    reader.remaining <= budget,
                    !control.is_stopped() ==> forall|k: int| 0 <= k < result.objects@.len() ==> decoded_object(
                        #[trigger] result.objects@[k],
                        image,
                        geometry,
                        t,
                        cells[k],
                        allowance_before(image, geometry, t, cells, budget, k),
                    ),
                    result.stopping_cell == old(result).stopping_cell,
                    result.diagnostics@ == old(result).diagnostics@,
                    result.max_decoded_bytes == old(result).max_decoded_bytes,
                    result.decoded_bytes == old(result).decoded_bytes,
                    result.state == (if exists|k: int| 0 <= k < result.objects@.len() && (#[trigger] result.objects@[k]).diagnostics@.len() > 0 {
                        SchemaState::Partial
                    } else {
                        start_state
                    }),
                    start_state == old(result).state,
                    control_kept(*old(control), *control),
                    same_phase(*old(control), *control),
                decreases page.detail.cells@.len() - c,
            {
                let cell = &page.detail.cells[c];
                let count = result.objects.len();
                assert(cells[count as int] == *cell) by {
                    assert(after[count as int] == page.detail.cells@[c as int]);
                }
                let ghost head_objects = result.objects@;
                let over = match cell.payload_size {
                    Some(size) => size > reader.remaining,
                    None => false,
                };
                let stop = stop_code(control);
                if stop.is_some() || over {
                    result.state = SchemaState::Partial;
                    result.diagnostics.push(match stop {
                        Some(code) => code,
                        None => SchemaDiagnostic::DecodeBudget,
                    });
                    result.stopping_cell = Some(cell.identity);
                    proof {
                        if stop is None {
                            assert(count < after.len());
                            assert(over_allowance(image, geometry, t, cells, budget, count as int));
                            lemma_first_over(image, geometry, t, cells, budget, 0, count as int);
                            assert(result.objects@ == head_objects);
                            assert(result.objects@.len() == first_over(image, geometry, t, cells, budget, 0));
                        } else {
                            assert(control.is_stopped());
                        }
                    }
                    return;
                }
                let ghost head = result.objects@;
                let object = decode(reader, cell, control);
                if object.diagnostics.len() > 0 {
                    result.state = SchemaState::Partial;
                }
                result.objects.push(object);
                proof {
                    lemma_allowance_spent(image, geometry, t, cells, budget, count + 1);
                    assert(allowance_before(image, geometry, t, cells, budget, count + 1)
                        == cell_payload(image, geometry, t, cells[count as int], allowance_before(image, geometry, t, cells, budget, count as int)).remaining);
                    assert forall|k: int| 0 <= k < count + 1 implies #[trigger] result.objects@[k] == (if k < count { head[k] } else { object }) by {}
                    if object.diagnostics@.len() > 0 {
                        assert(result.objects@[count as int].diagnostics@.len() > 0);
                    } else {
                        if exists|k: int| 0 <= k < count + 1 && (#[trigger] result.objects@[k]).diagnostics@.len() > 0 {
                            let k = choose|k: int| 0 <= k < count + 1 && (#[trigger] result.objects@[k]).diagnostics@.len() > 0;
                            assert(k < count);
                            assert(head[k].diagnostics@.len() > 0);
                        }
                    }
                    if exists|k: int| 0 <= k < count && (#[trigger] head[k]).diagnostics@.len() > 0 {
                        let k = choose|k: int| 0 <= k < count && (#[trigger] head[k]).diagnostics@.len() > 0;
                        assert(result.objects@[k] == head[k]);
                    }
                }
                c = c + 1;
            }
            assert(after =~= before + page.detail.cells@);
        } else {
            assert(schema_cells(pages@, tree_pages@.take(p + 1)) == before);
        }
        p = p + 1;
    }
    proof {
        assert(tree_pages@.take(p as int) =~= tree_pages@);
        lemma_first_over(image, geometry, t, cells, budget, 0, cells.len() as int);
    }
}


proof fn lemma_payload_spends(image: Seq<u8>, geometry: DatabaseGeometry, t: Topology, cell: CellDetail, remaining: u64)
    ensures
        cell_payload(image, geometry, t, cell, remaining).remaining <= remaining,
{
}

proof fn lemma_allowance_spent(image: Seq<u8>, geometry: DatabaseGeometry, t: Topology, cells: Seq<CellDetail>, budget: u64, k: int)
    ensures
        allowance_before(image, geometry, t, cells, budget, k) <= budget,
    decreases k,
{
    if k > 0 {
        lemma_allowance_spent(image, geometry, t, cells, budget, k - 1);
        lemma_payload_spends(image, geometry, t, cells[k - 1], allowance_before(image, geometry, t, cells, budget, k - 1));
    }
}

/// Every usable position of a traversal prefix is a page that reconciled to a B-tree role.
proof fn lemma_usable_roles(prefix: Seq<PageIdentity>, classes: Seq<PageClassification>, links: Seq<Relationship>, s: int, q: int)
    requires
        0 <= s <= q < usable_from(prefix, classes, links, s),
        q < prefix.len(),
    ensures
        spec_btree_role(classes, prefix[q].page_number) is Some,
    decreases prefix.len() - s,
{
    if s < q {
        lemma_usable_roles(prefix, classes, links, s + 1, q);
    }
}

/// The pages of a tree that the traversals reach are inventoried pages.
proof fn lemma_tree_pages_inventoried(
    tree: TreeRoot,
    ts: Seq<Traversal>,
    classes: Seq<PageClassification>,
    links: Seq<Relationship>,
    pages: Seq<PageEntity>,
    complete: bool,
)
    requires
        describes_tree(tree, ts, ts.len() as int, classes, links, pages, complete),
        trees_inventoried(ts, classes, links, pages),
    ensures
        forall|k: int| 0 <= k < tree.pages@.len() ==> 1 <= #[trigger] tree.pages@[k] <= pages.len(),
{
    assert forall|k: int| 0 <= k < tree.pages@.len() implies 1 <= #[trigger] tree.pages@[k] <= pages.len() by {
        let p = tree.pages@[k];
        assert(tree.pages@.contains(p));
        assert(tree_member(ts, ts.len() as int, tree.root, p, classes, links));
        let j = choose|j: int| 0 <= j < ts.len() && is_tree((#[trigger] ts[j])@, tree.root) && usable_holds(ts[j]@, p, classes, links);
        let prefix = ts[j]@.validated_prefix;
        let pos = choose|pos: int| 0 <= pos < usable_from(prefix, classes, links, 0) && (#[trigger] prefix[pos]).page_number == p;
        lemma_usable_from_bound(prefix, classes, links, 0);
        lemma_usable_roles(prefix, classes, links, 0, pos);
        assert(usable_inventoried(ts[j]@, classes, links, pages));
    }
}

/// The schema tree is found: the tree at page one holds page one.
pub open spec fn schema_tree_found(t: Topology) -> bool {
    &&& has_tree(t.traversals@, t.traversals@.len() as int, 1)
    &&& tree_member(t.traversals@, t.traversals@.len() as int, 1, 1, t.classifications@, t.relationships@)
}

/// `r` is what reading the schema tree `tree`, of the trees `index`, gives
/// when nothing stops the work; `decoded` are the objects before attribution.
pub open spec fn schema_read(
    r: SchemaEvidence,
    tree: TreeRoot,
    index: Seq<TreeRoot>,
    decoded: Seq<SchemaObject>,
    image: Seq<u8>,
    geometry: DatabaseGeometry,
    pages: Seq<PageEntity>,
    t: Topology,
    budget: u64,
) -> bool {
    let ts = t.traversals@;
    let classes = t.classifications@;
    let links = t.relationships@;
    let complete = t.coverage.reason == TopologyCoverageReason::Complete;
    let cells = schema_cells(pages, tree.pages@);
    let n = first_over(image, geometry, t, cells, budget, 0);
    let short = n < cells.len();
    &&& indexes_trees(index, ts, classes, links, pages, complete)
    &&& tree.root == 1
    &&& describes_tree(tree, ts, ts.len() as int, classes, links, pages, complete)
    &&& decoded.len() == n
    &&& forall|k: int| 0 <= k < n ==> decoded_object(#[trigger] decoded[k], image, geometry, t, cells[k], allowance_before(image, geometry, t, cells, budget, k))
    &&& r.objects@.len() == n
    &&& forall|k: int| 0 <= k < n ==> reconciled(decoded[k], #[trigger] r.objects@[k], decoded, classes, index, t.claims@)
    &&& r.max_decoded_bytes == budget
    &&& r.decoded_bytes == budget - allowance_before(image, geometry, t, cells, budget, n)
    &&& r.stopping_cell == (if short { Some(cells[n].identity) } else { None })
    &&& r.diagnostics@ == (if tree.partial { seq![SchemaDiagnostic::BtreePartial] } else { seq![] })
        + (if short { seq![SchemaDiagnostic::DecodeBudget] } else { seq![] })
    &&& r.state == (if tree.partial || short
        || (exists|k: int| 0 <= k < n && (#[trigger] decoded[k]).diagnostics@.len() > 0)
        || (exists|k: int| 0 <= k < n && incomplete((#[trigger] r.objects@[k]).state)) {
        SchemaState::Partial
    } else {
        SchemaState::Complete
    })
}

/// What schema inspection reports when nothing stops it.
pub open spec fn inspected(r: SchemaEvidence, image: Seq<u8>, geometry: DatabaseGeometry, pages: Seq<PageEntity>, t: Topology, budget: u64) -> bool {
    if !trees_inventoried(t.traversals@, t.classifications@, t.relationships@, pages) {
        &&& r.state == SchemaState::Partial
        &&& r.objects@.len() == 0
        &&& r.diagnostics@ == seq![SchemaDiagnostic::StorageUnavailable]
        &&& r.max_decoded_bytes == budget
        &&& r.decoded_bytes == 0
        &&& r.stopping_cell is None
    } else if !schema_tree_found(t) {
        &&& r.state == SchemaState::Unavailable
        &&& r.objects@.len() == 0
        &&& r.diagnostics@ == seq![SchemaDiagnostic::BtreeUnavailable]
        &&& r.max_decoded_bytes == budget
        &&& r.decoded_bytes == 0
        &&& r.stopping_cell is None
    } else {
        exists|tree: TreeRoot, index: Seq<TreeRoot>, decoded: Seq<SchemaObject>|
            schema_read(r, tree, index, decoded, image, geometry, pages, t, budget)
    }
}

/// Whether any object carries a decode-budget diagnostic.
fn objects_over_budget(objects: &Vec<SchemaObject>) -> (r: bool)
    ensures
        r == exists|k: int| 0 <= k < objects@.len() && (#[trigger] objects@[k]).diagnostics@.contains(SchemaDiagnostic::DecodeBudget),
{
    let mut k: usize = 0;
    while k < objects.len()
        invariant
            k <= objects@.len(),
            forall|j: int| 0 <= j < k ==> !(#[trigger] objects@[j]).diagnostics@.contains(SchemaDiagnostic::DecodeBudget),
        decreases objects@.len() - k,
    {
        let diagnostics = &objects[k].diagnostics;
        let mut d: usize = 0;
        while d < diagnostics.len()
            invariant
                k < objects@.len(),
                diagnostics@ == objects@[k as int].diagnostics@,
                d <= diagnostics@.len(),
                forall|j: int| 0 <= j < d ==> diagnostics@[j] != SchemaDiagnostic::DecodeBudget,
            decreases diagnostics@.len() - d,
        {
            if diagnostics[d] == SchemaDiagnostic::DecodeBudget {
                assert(diagnostics@[d as int] == SchemaDiagnostic::DecodeBudget);
                assert(objects@[k as int].diagnostics@.contains(SchemaDiagnostic::DecodeBudget));
                return true;
            }
            d = d + 1;
        }
        assert(!objects@[k as int].diagnostics@.contains(SchemaDiagnostic::DecodeBudget));
        k = k + 1;
    }
    false
}

/// Whether `diagnostics` holds `d`.
fn has_diagnostic(diagnostics: &Vec<SchemaDiagnostic>, d: SchemaDiagnostic) -> (r: bool)
    ensures
        r == diagnostics@.contains(d),
{
    let mut k: usize = 0;
    while k < diagnostics.len()
        invariant
            k <= diagnostics@.len(),
            forall|j: int| 0 <= j < k ==> diagnostics@[j] != d,
        decreases diagnostics@.len() - k,
    {
        if diagnostics[k] == d {
            assert(diagnostics@[k as int] == d);
            return true;
        }
        k = k + 1;
    }
    false
}


/// The schema, or one of its objects, ran out of decode allowance.
pub open spec fn decode_budget_met(r: SchemaEvidence) -> bool {
    ||| r.diagnostics@.contains(SchemaDiagnostic::DecodeBudget)
    ||| exists|k: int| 0 <= k < r.objects@.len() && (#[trigger] r.objects@[k]).diagnostics@.contains(SchemaDiagnostic::DecodeBudget)
}

/// Reads the schema table from the storage tree at page one, in page and
/// cell order, within the decode allowance, and attributes each object to
/// the tree its root column names.
pub fn inspect(
    image: &[u8],
    geometry: &DatabaseGeometry,
    pages: &Vec<PageEntity>,
    topology: &Topology,
    control: &mut WorkControl,
    budget: SchemaBudget,
) -> (r: SchemaEvidence)
    requires
        geometry_wf(*geometry),
    ensures
        control_kept(*old(control), *final(control)),
        r.max_decoded_bytes == budget.max_decoded_bytes,
        r.decoded_bytes <= budget.max_decoded_bytes,
        !final(control).is_stopped() ==> {
            &&& inspected(r, image@, *geometry, pages@, *topology, budget.max_decoded_bytes)
            &&& final(control).phase == TopologyPhase::SchemaInspection.spec_code()
            &&& final(control).phase_complete == (trees_inventoried(topology.traversals@, topology.classifications@, topology.relationships@, pages@)
                && schema_tree_found(*topology) && !decode_budget_met(r))
        },
{
    control.begin_phase(TopologyPhase::SchemaInspection, None);
    let ghost begun = *control;
    let ghost ts = topology.traversals@;
    let ghost classes = topology.classifications@;
    let ghost links = topology.relationships@;
    let ghost complete = topology.coverage.reason == TopologyCoverageReason::Complete;
    let trees = match index_trees(topology, pages, control) {
        Ok(trees) => trees,
        Err(code) => {
            let mut evidence = SchemaEvidence::unavailable(budget);
            evidence.state = SchemaState::Partial;
            evidence.diagnostics = vec![code];
            assert(evidence.diagnostics@ =~= seq![code]);
            return evidence;
        },
    };
    let i = match find_tree(&trees.roots, 1) {
        Some(i) => i,
        None => {
            proof {
                if schema_tree_found(*topology) {
                    let a = choose|a: int| 0 <= a < trees.roots@.len() && (#[trigger] trees.roots@[a]).root == 1;
                    assert(describes_tree(trees.roots@[a], ts, ts.len() as int, classes, links, pages@, complete));
                    assert(trees.roots@[a].pages@.contains(1));
                    assert(holds_root(trees.roots@, a, 1));
                }
            }
            return SchemaEvidence::unavailable(budget);
        },
    };
    let tree = &trees.roots[i];
    proof {
        assert(describes_tree(trees.roots@[i as int], ts, ts.len() as int, classes, links, pages@, complete));
        lemma_tree_pages_inventoried(*tree, ts, classes, links, pages@, complete);
    }
    let mut result = SchemaEvidence {
        state: SchemaState::Complete,
        objects: Vec::new(),
        diagnostics: Vec::new(),
        max_decoded_bytes: budget.max_decoded_bytes,
        decoded_bytes: 0,
        stopping_cell: None,
    };
    let mut reader = PayloadReader { image, geometry, topology, remaining: budget.max_decoded_bytes };
    if tree.partial {
        result.state = SchemaState::Partial;
        result.diagnostics.push(SchemaDiagnostic::BtreePartial);
    }
    assert(result.diagnostics@ =~= (if tree.partial { seq![SchemaDiagnostic::BtreePartial] } else { seq![] }));
    let ghost start = result;
    decode_cells(&mut result, &mut reader, pages, &tree.pages, control);
    result.decoded_bytes = budget.max_decoded_bytes - reader.remaining;
    let ghost decoded = result;
    reconcile_attribution(&mut result, topology, &trees, control);
    let over = has_diagnostic(&result.diagnostics, SchemaDiagnostic::DecodeBudget) || objects_over_budget(&result.objects);
    if !over && !control.stopped() {
        control.finish_phase(TopologyPhase::SchemaInspection);
    }
    proof {
        if !control.is_stopped() {
            let cells = schema_cells(pages@, tree.pages@);
            let n = first_over(image@, *geometry, *topology, cells, budget.max_decoded_bytes, 0);
            assert(holds_root(trees.roots@, i as int, 1));
            assert(schema_tree_found(*topology));
            assert(decoded.diagnostics@ == result.diagnostics@);
            lemma_first_over_bound(image@, *geometry, *topology, cells, budget.max_decoded_bytes, 0);
            if n < cells.len() {
                assert(decoded.diagnostics@ == start.diagnostics@.push(SchemaDiagnostic::DecodeBudget));
            } else {
                assert(decoded.diagnostics@ == start.diagnostics@);
            }
            assert(result.diagnostics@ =~= (if tree.partial { seq![SchemaDiagnostic::BtreePartial] } else { seq![] })
                + (if n < cells.len() { seq![SchemaDiagnostic::DecodeBudget] } else { seq![] }));
            assert(forall|k: int| 0 <= k < n ==> #[trigger] decoded.objects@[k] == decoded.objects@[k]);
            assert(schema_read(result, *tree, trees.roots@, decoded.objects@, image@, *geometry, pages@, *topology, budget.max_decoded_bytes));
        }
    }
    result
}

} // verus!
