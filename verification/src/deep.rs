//! Typed decoding of one selected record: its header, its fields, and the
//! value each field holds.
use vstd::prelude::*;

use crate::btree::{lemma_varint_bounds, serial_size, ByteRange};
use crate::bytes::{varint, varint_at};
use vstd::slice::slice_subrange;
use crate::geometry::TextEncoding;
use crate::text::{decode_text, decoded_text_length, spec_decode_text, spec_text_length, utf8_total};
use crate::topology::{PhysicalEvidence, ValidationRule};

verus! {

/// Ceilings on the work of one deep inspection.
#[derive(Clone, Copy, Debug, PartialEq, Eq, Structural)]
pub struct DeepBudget {
    pub max_payload_bytes: u64,
    pub max_overflow_pages: u32,
    pub max_values: u32,
    pub max_decoded_bytes: u64,
}

/// The default ceiling on decoded bytes: 16 MiB.
pub fn default_decoded_bytes() -> (r: u64)
    ensures
        r == 16 * 1024 * 1024,
{
    16 * 1024 * 1024
}

impl Default for DeepBudget {
    fn default() -> (r: Self)
        ensures
            r == (DeepBudget {
                max_payload_bytes: 0x100_0000u64,
                max_overflow_pages: 32768,
                max_values: 4096,
                max_decoded_bytes: 0x100_0000u64,
            }),
    {
        DeepBudget {
            max_payload_bytes: 16 * 1024 * 1024,
            max_overflow_pages: 32768,
            max_values: 4096,
            max_decoded_bytes: default_decoded_bytes(),
        }
    }
}

#[derive(Clone, Copy, Debug, PartialEq, Eq, Structural)]
pub enum DeepState {
    Pending,
    Completed,
    Cancelled,
    BudgetStopped,
    InvalidTarget,
    StaleRevision,
    InvalidatedSnapshot,
    Failed,
}

/// Why record decoding stopped.
#[derive(Clone, Copy, Debug, PartialEq, Eq, Structural)]
pub enum DeepReason {
    RecordInvalid,
    TextEncodingInvalid,
    ValueCountBudget,
    DecodedByteBudget,
    Cancelled,
}

/// A failed decoding: the state it leaves the inspection in, why, and the
/// record offset at which it stopped.
#[derive(Clone, Copy, Debug, PartialEq, Eq, Structural)]
pub struct DeepFailure {
    pub state: DeepState,
    pub reason: DeepReason,
    pub offset: u64,
}

/// A decoded value. Reals are kept as their IEEE-754 bit pattern.
#[derive(Clone, Debug, PartialEq, Eq)]
pub enum TypedValue {
    Null,
    Integer { value: i64 },
    Real { bits: u64 },
    Text { value: String },
    Blob { byte_length: u64 },
}

/// One field of a record: where it lies in the payload and the page bytes it came from.
#[derive(Clone, Debug, PartialEq, Eq)]
pub struct DeepField {
    pub ordinal: u32,
    pub serial_type: u64,
    pub payload_offset: u64,
    pub byte_length: u64,
    pub source: Vec<PhysicalEvidence>,
}

#[derive(Clone, Debug, PartialEq, Eq)]
pub struct DeepValue {
    pub field: DeepField,
    pub value: TypedValue,
}

/// Spec-level value.
pub enum ValueView {
    Null,
    Integer(i64),
    Real(u64),
    Text(Seq<char>),
    Blob(u64),
}

impl TypedValue {
    pub open spec fn view_value(&self) -> ValueView {
        match self {
            TypedValue::Null => ValueView::Null,
            TypedValue::Integer { value } => ValueView::Integer(*value),
            TypedValue::Real { bits } => ValueView::Real(*bits),
            TypedValue::Text { value } => ValueView::Text(value@),
            TypedValue::Blob { byte_length } => ValueView::Blob(*byte_length),
        }
    }
}

/// The byte length of a field of serial type `serial`, if the type is one that
/// the schema format allows: the constant types 8 and 9 need format 4, and
/// types 10 and 11 are reserved.
pub open spec fn spec_field_length(serial: u64, schema_format: u32) -> Option<u64> {
    if (serial == 8 || serial == 9) && schema_format < 4 {
        None
    } else {
        serial_size(serial)
    }
}

pub fn field_length(serial: u64, schema_format: u32) -> (r: Option<u64>)
    ensures
        r == spec_field_length(serial, schema_format),
{
    if (serial == 8 || serial == 9) && schema_format < 4 {
        return None;
    }
    if serial == 0 || serial == 8 || serial == 9 {
        Some(0)
    } else if 1 <= serial && serial <= 4 {
        Some(serial)
    } else if serial == 5 {
        Some(6)
    } else if serial == 6 || serial == 7 {
        Some(8)
    } else if serial == 10 || serial == 11 {
        None
    } else {
        Some((serial - 12) / 2)
    }
}

/// The serial types of a record header, read from `cursor` to the end of
/// `header`; more than `max` of them exceed the value ceiling.
pub open spec fn header_walk(header: Seq<u8>, cursor: int, max: nat, serials: Seq<u64>) -> Result<Seq<u64>, DeepReason>
    decreases header.len() - cursor,
{
    if cursor >= header.len() || cursor < 0 {
        Ok(serials)
    } else if serials.len() >= max {
        Err(DeepReason::ValueCountBudget)
    } else {
        match varint_at(header, cursor) {
            None => Err(DeepReason::RecordInvalid),
            Some((serial, next)) => if cursor < next <= header.len() {
                header_walk(header, next, max, serials.push(serial))
            } else {
                Err(DeepReason::RecordInvalid)
            },
        }
    }
}

/// The serial types of a record and the offset where its body begins.
pub open spec fn spec_header(bytes: Seq<u8>, schema_format: u32, max_values: u32) -> Result<(Seq<u64>, int), DeepReason> {
    if !(1 <= schema_format <= 4) {
        Err(DeepReason::RecordInvalid)
    } else {
        match varint_at(bytes, 0) {
            None => Err(DeepReason::RecordInvalid),
            Some((size, start)) => if start <= size <= bytes.len() {
                match header_walk(bytes.subrange(0, size as int), start, max_values as nat, seq![]) {
                    Ok(serials) => Ok((serials, size as int)),
                    Err(reason) => Err(reason),
                }
            } else {
                Err(DeepReason::RecordInvalid)
            },
        }
    }
}

/// The extents of fields `k..` laid end to end from `cursor`: serial type,
/// offset and length of each, when they fill the record exactly.
pub open spec fn fields_from(bytes: Seq<u8>, serials: Seq<u64>, k: int, cursor: int, schema_format: u32) -> Option<Seq<(u64, int, int)>>
    decreases serials.len() - k,
{
    if k < 0 || k >= serials.len() {
        if cursor == bytes.len() { Some(seq![]) } else { None }
    } else {
        match spec_field_length(serials[k], schema_format) {
            None => None,
            Some(length) => if cursor + length <= bytes.len() {
                match fields_from(bytes, serials, k + 1, cursor + length, schema_format) {
                    Some(rest) => Some(seq![(serials[k], cursor, length as int)] + rest),
                    None => None,
                }
            } else {
                None
            },
        }
    }
}

/// The fields of a well-formed record with at most `max_values` values.
pub open spec fn spec_record_fields(bytes: Seq<u8>, schema_format: u32, max_values: u32) -> Option<Seq<(u64, int, int)>> {
    match spec_header(bytes, schema_format, max_values) {
        Ok((serials, start)) => fields_from(bytes, serials, 0, start, schema_format),
        Err(_) => None,
    }
}

/// The unsigned big-endian value of `s`.
pub open spec fn be_unsigned(s: Seq<u8>) -> int
    decreases s.len(),
{
    if s.len() == 0 {
        0
    } else {
        be_unsigned(s.drop_last()) * 256 + s.last()
    }
}

/// `256` to the power `n`.
pub open spec fn pow256(n: nat) -> int
    decreases n,
{
    if n == 0 {
        1
    } else {
        pow256((n - 1) as nat) * 256
    }
}

/// The two's-complement big-endian value of `s`.
pub open spec fn be_signed(s: Seq<u8>) -> int {
    if s.len() > 0 && s[0] >= 128 {
        be_unsigned(s) - pow256(s.len())
    } else {
        be_unsigned(s)
    }
}

/// The value that field bytes `raw` of serial type `serial` hold, or `None`
/// for text that is not valid in `encoding`.
pub open spec fn spec_value(serial: u64, raw: Seq<u8>, encoding: TextEncoding) -> Option<ValueView> {
    if serial == 0 {
        Some(ValueView::Null)
    } else if serial == 8 || serial == 9 {
        Some(ValueView::Integer((serial - 8) as i64))
    } else if 1 <= serial <= 6 {
        Some(ValueView::Integer(be_signed(raw) as i64))
    } else if serial == 7 {
        Some(ValueView::Real(be_unsigned(raw) as u64))
    } else if serial % 2 == 0 {
        Some(ValueView::Blob(raw.len() as u64))
    } else {
        match spec_decode_text(raw, encoding) {
            Some(chars) => Some(ValueView::Text(chars)),
            None => None,
        }
    }
}

proof fn lemma_be_bound(s: Seq<u8>)
    ensures
        0 <= be_unsigned(s) < pow256(s.len()),
    decreases s.len(),
{
    if s.len() > 0 {
        lemma_be_bound(s.drop_last());
    }
}

/// What each serial type holds: type 0 is NULL, types 8 and 9 the integers 0
/// and 1, types 1 to 6 big-endian two's-complement integers, type 7 a real,
/// even types from 12 blobs and odd types from 13 text; the constant types
/// need schema format 4.
pub proof fn law_serial_type_values(raw: Seq<u8>, encoding: TextEncoding, serial: u64, format: u32)
    ensures
        spec_value(0, raw, encoding) == Some(ValueView::Null),
        spec_value(8, raw, encoding) == Some(ValueView::Integer(0)),
        spec_value(9, raw, encoding) == Some(ValueView::Integer(1)),
        1 <= serial <= 6 ==> spec_value(serial, raw, encoding) matches Some(ValueView::Integer(_)),
        spec_value(7, raw, encoding) matches Some(ValueView::Real(_)),
        serial >= 12 && serial % 2 == 0 ==> spec_value(serial, raw, encoding) == Some(ValueView::Blob(raw.len() as u64)),
        serial >= 13 && serial % 2 == 1 ==> (spec_value(serial, raw, encoding) is Some ==> spec_value(serial, raw, encoding) matches Some(ValueView::Text(_))),
        format < 4 ==> spec_field_length(8, format) is None && spec_field_length(9, format) is None,
        spec_field_length(8, 4) == Some(0u64),
        spec_field_length(1, format) == Some(1u64),
        spec_field_length(7, format) == Some(8u64),
{
}

/// Decodes the bytes of one field of serial type `serial`.
pub fn decode_value(serial: u64, raw: &[u8], encoding: TextEncoding) -> (r: Result<TypedValue, ()>)
    requires
        serial != 10 && serial != 11,
        serial_size(serial) == Some(raw@.len() as u64),
    ensures
        match spec_value(serial, raw@, encoding) {
            Some(v) => r matches Ok(t) && t.view_value() == v,
            None => r is Err,
        },
{
    if serial == 0 {
        return Ok(TypedValue::Null);
    }
    if serial == 8 || serial == 9 {
        return Ok(TypedValue::Integer { value: (serial - 8) as i64 });
    }
    if serial <= 7 {
        proof {
            assert(raw@.len() == raw.len());
            assert(raw@.len() <= 8);
            lemma_pow256_values();
        }
        let mut unsigned: u64 = 0;
        let mut scale: u128 = 1;
        let mut i: usize = 0;
        while i < raw.len()
            invariant
                i <= raw@.len() <= 8,
                unsigned == be_unsigned(raw@.subrange(0, i as int)),
                scale == pow256(i as nat),
                unsigned < scale,
            decreases raw@.len() - i,
        {
            proof {
                assert(raw@.subrange(0, i + 1).drop_last() =~= raw@.subrange(0, i as int));
                lemma_pow256_monotone(i as nat, 7);
                lemma_pow256_values();
            }
            unsigned = unsigned * 256 + raw[i] as u64;
            scale = scale * 256;
            i = i + 1;
        }
        proof {
            assert(raw@.subrange(0, raw@.len() as int) =~= raw@);
        }
        if serial == 7 {
            return Ok(TypedValue::Real { bits: unsigned });
        }
        proof {
            lemma_pow256_monotone(raw@.len(), 8);
            lemma_pow256_values();
            lemma_be_bound(raw@);
        }
        let value: i64 = if raw[0] >= 128 {
            (unsigned as i128 - scale as i128) as i64
        } else {
            unsigned as i64
        };
        return Ok(TypedValue::Integer { value });
    }
    if serial % 2 == 0 {
        return Ok(TypedValue::Blob { byte_length: raw.len() as u64 });
    }
    match decode_text(raw, encoding) {
        Ok(value) => Ok(TypedValue::Text { value }),
        Err(()) => Err(()),
    }
}

proof fn lemma_pow256_values()
    ensures
        pow256(6) == 0x1_0000_0000_0000,
        pow256(7) == 0x100_0000_0000_0000,
        pow256(8) == 0x1_0000_0000_0000_0000,
{
    reveal_with_fuel(pow256, 9);
}

proof fn lemma_pow256_monotone(a: nat, b: nat)
    requires
        a <= b,
    ensures
        1 <= pow256(a) <= pow256(b),
    decreases b,
{
    if a < b {
        lemma_pow256_monotone(a, (b - 1) as nat);
    } else if a > 0 {
        lemma_pow256_monotone((a - 1) as nat, (a - 1) as nat);
    }
}

/// The number of decimal digits of `n`.
pub open spec fn decimal_digits(n: nat) -> nat
    decreases n,
{
    if n < 10 {
        1
    } else {
        1 + decimal_digits(n / 10)
    }
}

/// The number of decimal digits of `n`.
pub fn decimal_length(n: u64) -> (r: u64)
    ensures
        r == decimal_digits(n as nat),
        1 <= r <= 20,
{
    let mut digits: u64 = 1;
    let mut rest = n;
    proof {
        lemma_digits_bound(n as nat);
    }
    while rest >= 10
        invariant
            digits + decimal_digits(rest as nat) == decimal_digits(n as nat) + 1,
            1 <= digits,
            decimal_digits(n as nat) <= 20,
        decreases rest,
    {
        rest = rest / 10;
        digits = digits + 1;
    }
    digits
}

proof fn lemma_digits_bound(n: nat)
    requires
        n <= u64::MAX,
    ensures
        1 <= decimal_digits(n) <= 20,
{
    reveal_with_fuel(decimal_digits, 21);
}

/// The length of the decimal rendering of `v`, sign included.
pub open spec fn integer_text_length(v: int) -> int {
    if v < 0 {
        1 + decimal_digits((-v) as nat) as int
    } else {
        decimal_digits(v as nat) as int
    }
}

/// The decoded bytes that a field counts against the ceiling: the length of
/// its rendering, text by its UTF-8 length. Reals are rendered elsewhere.
pub open spec fn field_text_bytes(serial: u64, raw: Seq<u8>, encoding: TextEncoding) -> int {
    match spec_value(serial, raw, encoding) {
        Some(ValueView::Integer(v)) => integer_text_length(v as int),
        Some(ValueView::Text(_)) => spec_text_length(raw, encoding).unwrap(),
        Some(ValueView::Blob(n)) => decimal_digits(n as nat) as int,
        _ => 0,
    }
}

/// The total of `field_text_bytes` over `fields` of `bytes`.
pub open spec fn decoded_total(fields: Seq<(u64, int, int)>, bytes: Seq<u8>, encoding: TextEncoding) -> int
    decreases fields.len(),
{
    if fields.len() == 0 {
        0
    } else {
        let f = fields.last();
        decoded_total(fields.drop_last(), bytes, encoding) + field_text_bytes(f.0, bytes.subrange(f.1, f.1 + f.2), encoding)
    }
}

/// The sum of the lengths of `segments`.
pub open spec fn segments_length(segments: Seq<PhysicalEvidence>) -> int
    decreases segments.len(),
{
    if segments.len() == 0 {
        0
    } else {
        segments_length(segments.drop_last()) + segments.last().range.length
    }
}

/// Segments that can be clipped without leaving their integer ranges.
pub open spec fn segments_wf(segments: Seq<PhysicalEvidence>) -> bool {
    &&& forall|i: int| 0 <= i < segments.len() ==> (#[trigger] segments[i]).range.page_offset + segments[i].range.length <= u32::MAX
    &&& forall|i: int| 0 <= i < segments.len() ==> (#[trigger] segments[i]).range.file_offset + segments[i].range.length <= u64::MAX
    &&& segments_length(segments) <= usize::MAX
}

/// The part of `segment`, which starts at payload offset `start`, that holds
/// payload bytes `offset..offset + length`, if any.
pub open spec fn clip(segment: PhysicalEvidence, start: int, offset: int, length: int) -> Option<PhysicalEvidence> {
    let end = start + segment.range.length;
    let low = if offset > start { offset } else { start };
    let high = if offset + length < end { offset + length } else { end };
    if low < high {
        Some(PhysicalEvidence {
            page: segment.page,
            range: ByteRange {
                page_offset: (segment.range.page_offset + (low - start)) as u32,
                file_offset: (segment.range.file_offset + (low - start)) as u64,
                length: (high - low) as u32,
            },
            validation_rule: ValidationRule::SelectedRecordField,
        })
    } else {
        None
    }
}

/// The page bytes that payload bytes `offset..offset + length` were read
/// from, one piece for each segment they overlap, in payload order.
pub open spec fn field_sources(offset: int, length: int, segments: Seq<PhysicalEvidence>) -> Seq<PhysicalEvidence>
    decreases segments.len(),
{
    if segments.len() == 0 {
        seq![]
    } else {
        let rest = field_sources(offset, length, segments.drop_last());
        match clip(segments.last(), segments_length(segments.drop_last()), offset, length) {
            Some(piece) => rest.push(piece),
            None => rest,
        }
    }
}

proof fn lemma_segments_length_prefix(segments: Seq<PhysicalEvidence>, n: int)
    requires
        0 <= n <= segments.len(),
    ensures
        segments_length(segments.subrange(0, n)) <= segments_length(segments),
    decreases segments.len() - n,
{
    if n < segments.len() {
        lemma_segments_length_prefix(segments, n + 1);
        assert(segments.subrange(0, n + 1).drop_last() =~= segments.subrange(0, n));
    } else {
        assert(segments.subrange(0, n) =~= segments);
    }
}

/// The page bytes that a field at payload `offset` of `length` bytes was read from.
pub fn field_source(offset: usize, length: usize, segments: &Vec<PhysicalEvidence>) -> (r: Vec<PhysicalEvidence>)
    requires
        segments_wf(segments@),
        offset + length <= usize::MAX,
    ensures
        r@ == field_sources(offset as int, length as int, segments@),
{
    let mut pieces: Vec<PhysicalEvidence> = Vec::new();
    let mut start: usize = 0;
    let mut i: usize = 0;
    while i < segments.len()
        invariant
            segments_wf(segments@),
            offset + length <= usize::MAX,
            i <= segments@.len(),
            start == segments_length(segments@.subrange(0, i as int)),
            pieces@ == field_sources(offset as int, length as int, segments@.subrange(0, i as int)),
        decreases segments@.len() - i,
    {
        let segment = segments[i];
        proof {
            assert(segments@.subrange(0, i + 1).drop_last() =~= segments@.subrange(0, i as int));
            lemma_segments_length_prefix(segments@, i + 1);
        }
        let end = start + segment.range.length as usize;
        let low = if offset > start { offset } else { start };
        let high = if offset + length < end { offset + length } else { end };
        if low < high {
            let delta = low - start;
            pieces.push(PhysicalEvidence {
                page: segment.page,
                range: ByteRange {
                    page_offset: segment.range.page_offset + delta as u32,
                    file_offset: segment.range.file_offset + delta as u64,
                    length: (high - low) as u32,
                },
                validation_rule: ValidationRule::SelectedRecordField,
            });
        }
        start = end;
        i = i + 1;
    }
    proof {
        assert(segments@.subrange(0, segments@.len() as int) =~= segments@);
    }
    pieces
}

proof fn lemma_utf8_total_nonneg(chars: Seq<char>)
    ensures
        utf8_total(chars) >= 0,
    decreases chars.len(),
{
    if chars.len() > 0 {
        lemma_utf8_total_nonneg(chars.drop_last());
    }
}

proof fn lemma_field_bytes_nonneg(serial: u64, raw: Seq<u8>, encoding: TextEncoding)
    requires
        spec_value(serial, raw, encoding) is Some,
    ensures
        field_text_bytes(serial, raw, encoding) >= 0,
{
    match spec_value(serial, raw, encoding) {
        Some(ValueView::Text(chars)) => {
            lemma_utf8_total_nonneg(chars);
        },
        _ => {},
    }
}

proof fn lemma_total_prefix(all: Seq<(u64, int, int)>, n: int, bytes: Seq<u8>, encoding: TextEncoding)
    requires
        0 <= n <= all.len(),
        forall|k: int| 0 <= k < all.len() ==> spec_value(all[k].0, bytes.subrange(all[k].1, all[k].1 + all[k].2), encoding) is Some,
    ensures
        decoded_total(all.subrange(0, n), bytes, encoding) <= decoded_total(all, bytes, encoding),
    decreases all.len() - n,
{
    if n < all.len() {
        lemma_total_prefix(all, n + 1, bytes, encoding);
        let f = all[n];
        assert(all.subrange(0, n + 1).drop_last() =~= all.subrange(0, n));
        lemma_field_bytes_nonneg(f.0, bytes.subrange(f.1, f.1 + f.2), encoding);
    } else {
        assert(all.subrange(0, n) =~= all);
    }
}

/// The state a decoding failure leaves the inspection in.
pub open spec fn state_of(reason: DeepReason) -> DeepState {
    match reason {
        DeepReason::ValueCountBudget | DeepReason::DecodedByteBudget => DeepState::BudgetStopped,
        DeepReason::Cancelled => DeepState::Cancelled,
        _ => DeepState::Failed,
    }
}

/// A checkpoint that lets decoding go on at every record offset.
pub open spec fn never_refuses<C: Fn(u64) -> bool>(checkpoint: C) -> bool {
    forall|offset: u64, go_on: bool| checkpoint.ensures((offset,), go_on) ==> go_on
}

/// A checkpoint that can refuse to let decoding go on at some record offset.
pub open spec fn may_refuse<C: Fn(u64) -> bool>(checkpoint: C) -> bool {
    exists|offset: u64| #[trigger] checkpoint.ensures((offset,), false)
}

/// Field `k` onward, laid end to end from `cursor`, reaches a field of valid
/// serial type that starts at `target` and fits in the record.
pub open spec fn field_reaches(bytes: Seq<u8>, serials: Seq<u64>, k: int, cursor: int, schema_format: u32, target: int) -> bool
    decreases serials.len() - k,
{
    if k < 0 || k >= serials.len() {
        false
    } else {
        match spec_field_length(serials[k], schema_format) {
            None => false,
            Some(length) => cursor + length <= bytes.len()
                && (cursor == target || field_reaches(bytes, serials, k + 1, cursor + length, schema_format, target)),
        }
    }
}

/// A failure for `reason` at record offset `offset`.
pub fn fail(reason: DeepReason, offset: usize) -> (r: DeepFailure)
    ensures
        r == (DeepFailure { state: state_of(reason), reason, offset: offset as u64 }),
{
    let state = match reason {
        DeepReason::ValueCountBudget | DeepReason::DecodedByteBudget => DeepState::BudgetStopped,
        DeepReason::Cancelled => DeepState::Cancelled,
        _ => DeepState::Failed,
    };
    DeepFailure { state, reason, offset: offset as u64 }
}

proof fn lemma_header_walk(header: Seq<u8>, cursor: int, max: nat, serials: Seq<u64>)
    requires
        serials.len() <= max,
    ensures
        header_walk(header, cursor, max, serials) matches Ok(all) ==> all.len() <= max,
    decreases header.len() - cursor,
{
    if 0 <= cursor < header.len() && serials.len() < max {
        match varint_at(header, cursor) {
            Some((serial, next)) => if cursor < next <= header.len() {
                lemma_header_walk(header, next, max, serials.push(serial));
            },
            None => {},
        }
    }
}

proof fn lemma_header_walk_reasons(header: Seq<u8>, cursor: int, max: nat, serials: Seq<u64>)
    ensures
        header_walk(header, cursor, max, serials) matches Err(reason)
            ==> reason == DeepReason::RecordInvalid || reason == DeepReason::ValueCountBudget,
    decreases header.len() - cursor,
{
    if 0 <= cursor < header.len() && serials.len() < max {
        match varint_at(header, cursor) {
            Some((serial, next)) => if cursor < next <= header.len() {
                lemma_header_walk_reasons(header, next, max, serials.push(serial));
            },
            None => {},
        }
    }
}

/// A malformed header is invalid or over the value ceiling, nothing else.
pub proof fn lemma_header_reasons(bytes: Seq<u8>, schema_format: u32, max_values: u32)
    ensures
        spec_header(bytes, schema_format, max_values) matches Err(reason)
            ==> reason == DeepReason::RecordInvalid || reason == DeepReason::ValueCountBudget,
{
    if 1 <= schema_format <= 4 {
        if let Some((size, start)) = varint_at(bytes, 0) {
            if start <= size <= bytes.len() {
                lemma_header_walk_reasons(bytes.subrange(0, size as int), start, max_values as nat, seq![]);
            }
        }
    }
}

/// Reads a record header: its size varint, then serial types up to the end
/// of the header, asking `checkpoint` before each serial type whether to go on.
pub fn record_header<C: Fn(u64) -> bool>(bytes: &[u8], schema_format: u32, max_values: u32, checkpoint: &C) -> (r: Result<(Vec<u64>, usize), DeepFailure>)
    requires
        forall|offset: u64| checkpoint.requires((offset,)),
    ensures
        match spec_header(bytes@, schema_format, max_values) {
            Ok((serials, size)) => r matches Ok((s, h)) && s@ == serials && h == size,
            Err(reason) => r matches Err(f) && f.reason == reason && f.state == state_of(reason),
        } || (r matches Err(f) && f.reason == DeepReason::Cancelled && f.state == DeepState::Cancelled && may_refuse(*checkpoint)),
        r matches Err(f) && f.reason == DeepReason::Cancelled ==> may_refuse(*checkpoint),
        r matches Ok((s, h)) ==> s@.len() <= max_values && h <= bytes@.len(),
{
    if !(1 <= schema_format && schema_format <= 4) {
        return Err(fail(DeepReason::RecordInvalid, 0));
    }
    let mut cursor: usize = 0;
    let size = match varint(bytes, &mut cursor) {
        Ok(n) => n,
        Err(()) => return Err(fail(DeepReason::RecordInvalid, 0)),
    };
    proof {
        lemma_varint_bounds(bytes@, 0);
    }
    if size < cursor as u64 || size > bytes.len() as u64 {
        return Err(fail(DeepReason::RecordInvalid, 0));
    }
    let end = size as usize;
    let header = slice_subrange(bytes, 0, end);
    let ghost start = cursor as int;
    let mut serials: Vec<u64> = Vec::new();
    while cursor < end
        invariant
            1 <= schema_format <= 4,
            varint_at(bytes@, 0) == Some((size, start)),
            end as int == size as int,
            start <= size <= bytes@.len(),
            header@ == bytes@.subrange(0, end as int),
            end == header@.len(),
            end <= bytes@.len(),
            cursor <= end,
            serials@.len() <= max_values,
            header_walk(header@, start, max_values as nat, seq![]) == header_walk(header@, cursor as int, max_values as nat, serials@),
            forall|offset: u64| checkpoint.requires((offset,)),
        decreases end - cursor,
    {
        if !checkpoint(cursor as u64) {
            return Err(fail(DeepReason::Cancelled, cursor));
        }
        if serials.len() >= max_values as usize {
            assert(header_walk(header@, cursor as int, max_values as nat, serials@) == Err::<Seq<u64>, DeepReason>(DeepReason::ValueCountBudget));
            return Err(fail(DeepReason::ValueCountBudget, cursor));
        }
        let at = cursor;
        proof {
            lemma_varint_bounds(header@, at as int);
        }
        match varint(header, &mut cursor) {
            Ok(serial) => serials.push(serial),
            Err(()) => {
                assert(header_walk(header@, at as int, max_values as nat, serials@) == Err::<Seq<u64>, DeepReason>(DeepReason::RecordInvalid));
                return Err(fail(DeepReason::RecordInvalid, at));
            },
        }
    }
    proof {
        lemma_header_walk(header@, start, max_values as nat, seq![]);
    }
    Ok((serials, end))
}

/// The length of the decimal rendering of `v`, sign included.
pub fn integer_length(v: i64) -> (r: u64)
    ensures
        r == integer_text_length(v as int),
        r <= 21,
{
    if v < 0 {
        let magnitude = (-(v as i128)) as u64;
        1 + decimal_length(magnitude)
    } else {
        decimal_length(v as u64)
    }
}

/// Value `v` is field `k` of a record, with extent `f`, read from `bytes`
/// whose pages `segments` list.
pub open spec fn value_matches(v: DeepValue, k: int, f: (u64, int, int), bytes: Seq<u8>, encoding: TextEncoding, segments: Seq<PhysicalEvidence>) -> bool {
    &&& v.field.ordinal == k
    &&& v.field.serial_type == f.0
    &&& v.field.payload_offset == f.1
    &&& v.field.byte_length == f.2
    &&& v.field.source@ == field_sources(f.1, f.2, segments)
    &&& spec_value(f.0, bytes.subrange(f.1, f.1 + f.2), encoding) == Some(v.value.view_value())
}

/// Decodes a record: its header, then each field's value in order, asking
/// `checkpoint` before each serial type and each value whether to go on.
/// Text must be valid in the database encoding, and the rendered values must
/// fit `budget.max_decoded_bytes`; a real counts by the length that
/// `real_text_length` gives for its bit pattern. Returns the values with the
/// number of decoded bytes they account for.
pub fn decode_record<F: Fn(u64) -> u64, C: Fn(u64) -> bool>(
    bytes: &[u8],
    encoding: TextEncoding,
    schema_format: u32,
    budget: DeepBudget,
    segments: &Vec<PhysicalEvidence>,
    real_text_length: &F,
    checkpoint: &C,
) -> (r: Result<(Vec<DeepValue>, u64), DeepFailure>)
    requires
        segments_wf(segments@),
        bytes@.len() <= isize::MAX,
        forall|bits: u64| real_text_length.requires((bits,)),
        forall|offset: u64| checkpoint.requires((offset,)),
    ensures
        r matches Ok((values, total)) ==> spec_record_fields(bytes@, schema_format, budget.max_values) matches Some(fields) && {
            &&& values@.len() == fields.len()
            &&& forall|k: int| 0 <= k < fields.len() ==> #[trigger] value_matches(values@[k], k, fields[k], bytes@, encoding, segments@)
            &&& total <= budget.max_decoded_bytes
            &&& (forall|k: int| 0 <= k < fields.len() ==> fields[k].0 != 7) ==> total == decoded_total(fields, bytes@, encoding)
        },
        never_refuses(*checkpoint) ==> (spec_header(bytes@, schema_format, budget.max_values) matches Err(reason) ==> r matches Err(f) && f.reason == reason),
        r matches Err(f) ==> {
            &&& f.state == state_of(f.reason)
            &&& f.reason == DeepReason::Cancelled ==> may_refuse(*checkpoint)
            &&& f.reason == DeepReason::RecordInvalid ==> spec_record_fields(bytes@, schema_format, budget.max_values) is None
            &&& f.reason == DeepReason::ValueCountBudget ==> spec_header(bytes@, schema_format, budget.max_values) == Err::<(Seq<u64>, int), DeepReason>(DeepReason::ValueCountBudget)
            &&& (f.reason == DeepReason::TextEncodingInvalid || f.reason == DeepReason::DecodedByteBudget) ==>
                (spec_header(bytes@, schema_format, budget.max_values) matches Ok((serials, start))
                && field_reaches(bytes@, serials, 0, start, schema_format, f.offset as int))
            &&& f.reason == DeepReason::TextEncodingInvalid ==> (spec_record_fields(bytes@, schema_format, budget.max_values) matches Some(fields)
                ==> exists|k: int| 0 <= k < fields.len() && spec_value(fields[k].0, bytes@.subrange(fields[k].1, fields[k].1 + fields[k].2), encoding) is None)
        },
        never_refuses(*checkpoint) && (spec_record_fields(bytes@, schema_format, budget.max_values) matches Some(fields) && {
            &&& forall|k: int| 0 <= k < fields.len() ==> spec_value(fields[k].0, bytes@.subrange(fields[k].1, fields[k].1 + fields[k].2), encoding) is Some
            &&& forall|k: int| 0 <= k < fields.len() ==> fields[k].0 != 7
            &&& decoded_total(fields, bytes@, encoding) <= budget.max_decoded_bytes
        }) ==> r is Ok,
{
    let (serials, start) = match record_header(bytes, schema_format, budget.max_values, checkpoint) {
        Ok(header) => header,
        Err(f) => {
            proof {
                lemma_header_reasons(bytes@, schema_format, budget.max_values);
            }
            return Err(f);
        },
    };
    let max = budget.max_decoded_bytes;
    let mut values: Vec<DeepValue> = Vec::new();
    let mut decoded: u64 = 0;
    let mut cursor: usize = start;
    let mut k: usize = 0;
    let ghost mut done: Seq<(u64, int, int)> = seq![];
    let ghost whole = fields_from(bytes@, serials@, 0, start as int, schema_format);
    while k < serials.len()
        invariant
            segments_wf(segments@),
            bytes@.len() <= isize::MAX,
            forall|bits: u64| real_text_length.requires((bits,)),
            serials@.len() <= budget.max_values,
            spec_header(bytes@, schema_format, budget.max_values) == Ok::<(Seq<u64>, int), DeepReason>((serials@, start as int)),
            whole == fields_from(bytes@, serials@, 0, start as int, schema_format),
            whole == match fields_from(bytes@, serials@, k as int, cursor as int, schema_format) {
                Some(rest) => Some(done + rest),
                None => None::<Seq<(u64, int, int)>>,
            },
            k <= serials@.len(),
            cursor <= bytes@.len(),
            done.len() == k,
            values@.len() == k,
            forall|q: int| 0 <= q < k ==> #[trigger] value_matches(values@[q], q, done[q], bytes@, encoding, segments@),
            max == budget.max_decoded_bytes,
            decoded <= max,
            (forall|q: int| 0 <= q < k ==> (#[trigger] done[q]).0 != 7) ==> decoded == decoded_total(done, bytes@, encoding),
            forall|offset: u64| checkpoint.requires((offset,)),
            forall|t: int| #[trigger] field_reaches(bytes@, serials@, k as int, cursor as int, schema_format, t)
                ==> field_reaches(bytes@, serials@, 0, start as int, schema_format, t),
        decreases serials@.len() - k,
    {
        if !checkpoint(cursor as u64) {
            return Err(fail(DeepReason::Cancelled, cursor));
        }
        let serial = serials[k];
        assert(spec_record_fields(bytes@, schema_format, budget.max_values) == whole);
        let length = match field_length(serial, schema_format) {
            Some(l) => l,
            None => {
                assert(fields_from(bytes@, serials@, k as int, cursor as int, schema_format) is None);
                return Err(fail(DeepReason::RecordInvalid, cursor));
            },
        };
        if length > (bytes.len() - cursor) as u64 {
            assert(fields_from(bytes@, serials@, k as int, cursor as int, schema_format) is None);
            return Err(fail(DeepReason::RecordInvalid, cursor));
        }
        let end = cursor + length as usize;
        let raw = slice_subrange(bytes, cursor, end);
        let ghost field = (serial, cursor as int, length as int);
        assert(field_reaches(bytes@, serials@, k as int, cursor as int, schema_format, cursor as int));
        proof {
            match fields_from(bytes@, serials@, k + 1, end as int, schema_format) {
                Some(rest) => {
                    assert(done + (seq![field] + rest) =~= done.push(field) + rest);
                },
                None => {},
            }
        }
        let text_length = if serial >= 13 && serial % 2 == 1 {
            match decoded_text_length(raw, encoding) {
                Ok(n) => n,
                Err(()) => {
                    proof {
                        if let Some(all) = whole {
                            assert(all[k as int] == field);
                        }
                    }
                    return Err(fail(DeepReason::TextEncodingInvalid, cursor));
                },
            }
        } else {
            0
        };
        proof {
            if let Some(all) = whole {
                if (forall|q: int| 0 <= q < all.len() ==> spec_value(all[q].0, bytes@.subrange(all[q].1, all[q].1 + all[q].2), encoding) is Some)
                    && (forall|q: int| 0 <= q < all.len() ==> all[q].0 != 7)
                    && decoded_total(all, bytes@, encoding) <= max {
                    assert(all[k as int] == field);
                    assert(all.subrange(0, k + 1) =~= done.push(field));
                    assert(done.push(field).drop_last() =~= done);
                    assert(bytes@.subrange(field.1, field.1 + field.2) =~= raw@);
                    lemma_total_prefix(all, k + 1, bytes@, encoding);
                    assert forall|q: int| 0 <= q < k implies (#[trigger] done[q]).0 != 7 by {
                        assert(all[q] == done[q]);
                    }
                    assert(decoded_total(done.push(field), bytes@, encoding) == decoded_total(done, bytes@, encoding)
                        + field_text_bytes(field.0, bytes@.subrange(field.1, field.1 + field.2), encoding));
                    assert(decoded + field_text_bytes(serial, raw@, encoding) <= max);
                    assert(spec_value(serial, raw@, encoding) is Some);
                    lemma_field_bytes_nonneg(serial, raw@, encoding);
                    if serial >= 13 && serial % 2 == 1 {
                        assert(text_length == field_text_bytes(serial, raw@, encoding));
                    }
                    assert(text_length <= max - decoded);
                }
            }
        }
        if text_length > max - decoded {
            return Err(fail(DeepReason::DecodedByteBudget, cursor));
        }
        let value = match decode_value(serial, raw, encoding) {
            Ok(v) => v,
            Err(()) => {
                proof {
                    if let Some(all) = whole {
                        assert(all[k as int] == field);
                    }
                }
                return Err(fail(DeepReason::TextEncodingInvalid, cursor));
            },
        };
        let value_bytes: u64 = match &value {
            TypedValue::Null => 0,
            TypedValue::Integer { value } => integer_length(*value),
            TypedValue::Real { bits } => real_text_length(*bits),
            TypedValue::Text { .. } => text_length,
            TypedValue::Blob { byte_length } => decimal_length(*byte_length),
        };
        proof {
            assert(bytes@.subrange(field.1, field.1 + field.2) =~= raw@);
            match value.view_value() {
                ValueView::Text(_) => {
                    assert(serial >= 13 && serial % 2 == 1);
                    assert(value_bytes == field_text_bytes(serial, raw@, encoding));
                },
                ValueView::Real(_) => {},
                _ => {
                    assert(value_bytes == field_text_bytes(serial, raw@, encoding));
                },
            }
            if let Some(all) = whole {
                if (forall|q: int| 0 <= q < all.len() ==> spec_value(all[q].0, bytes@.subrange(all[q].1, all[q].1 + all[q].2), encoding) is Some)
                    && (forall|q: int| 0 <= q < all.len() ==> all[q].0 != 7)
                    && decoded_total(all, bytes@, encoding) <= max {
                    assert(all[k as int] == field);
                    assert(all.subrange(0, k + 1) =~= done.push(field));
                    assert(done.push(field).drop_last() =~= done);
                    lemma_total_prefix(all, k + 1, bytes@, encoding);
                    assert forall|q: int| 0 <= q < k implies (#[trigger] done[q]).0 != 7 by {
                        assert(all[q] == done[q]);
                    }
                    assert(decoded_total(done.push(field), bytes@, encoding) == decoded_total(done, bytes@, encoding)
                        + field_text_bytes(field.0, bytes@.subrange(field.1, field.1 + field.2), encoding));
                    assert(value_bytes <= max - decoded);
                }
            }
        }
        if value_bytes > max - decoded {
            return Err(fail(DeepReason::DecodedByteBudget, cursor));
        }
        decoded = decoded + value_bytes;
        let source = field_source(cursor, length as usize, segments);
        values.push(DeepValue {
            field: DeepField { ordinal: k as u32, serial_type: serial, payload_offset: cursor as u64, byte_length: length, source },
            value,
        });
        proof {
            let next = done.push(field);
            assert(next.drop_last() =~= done);
            assert(bytes@.subrange(field.1, field.1 + field.2) =~= raw@);
            assert(decoded_total(next, bytes@, encoding) == decoded_total(done, bytes@, encoding) + field_text_bytes(serial, raw@, encoding));
            match value.view_value() {
                ValueView::Text(_) => {
                    assert(serial >= 13 && serial % 2 == 1);
                    assert(value_bytes == field_text_bytes(serial, raw@, encoding));
                },
                ValueView::Real(_) => {},
                _ => {
                    assert(value_bytes == field_text_bytes(serial, raw@, encoding));
                },
            }
            assert(serial != 7 ==> value_bytes == field_text_bytes(serial, raw@, encoding));
            assert forall|q: int| 0 <= q < k + 1 implies #[trigger] value_matches(values@[q], q, next[q], bytes@, encoding, segments@) by {
                if q < k {
                    assert(next[q] == done[q]);
                }
            }
            done = next;
        }
        proof {
            assert forall|t: int| #[trigger] field_reaches(bytes@, serials@, k + 1, end as int, schema_format, t)
                implies field_reaches(bytes@, serials@, 0, start as int, schema_format, t) by {
                assert(field_reaches(bytes@, serials@, k as int, cursor as int, schema_format, t));
            }
        }
        cursor = end;
        k = k + 1;
    }
    if cursor != bytes.len() {
        assert(fields_from(bytes@, serials@, k as int, cursor as int, schema_format) is None);
        return Err(fail(DeepReason::RecordInvalid, cursor));
    }
    proof {
        assert(done + seq![] =~= done);
    }
    Ok((values, decoded))
}

} // verus!
