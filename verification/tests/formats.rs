use volmap_sqlite::bytes::varint;
use volmap_sqlite::deep::{decode_value, TypedValue};
use volmap_sqlite::geometry::{decode_geometry, InspectionError, TextEncoding};
use volmap_sqlite::pointer_map::{map_kind, PointerMapEvidence, PointerMapKind};
use volmap_sqlite::roles::PageRole;
use volmap_sqlite::signal::StopSignal;
use volmap_sqlite::text::decode_text;

fn header(page_size: u16, page_count: u32, largest_root: u32) -> Vec<u8> {
    let mut h = vec![0u8; 100];
    h[..16].copy_from_slice(b"SQLite format 3\0");
    h[16..18].copy_from_slice(&page_size.to_be_bytes());
    h[18] = 1;
    h[19] = 1;
    h[21] = 64;
    h[22] = 32;
    h[23] = 32;
    h[24..28].copy_from_slice(&1u32.to_be_bytes());
    h[28..32].copy_from_slice(&page_count.to_be_bytes());
    h[44..48].copy_from_slice(&4u32.to_be_bytes());
    h[52..56].copy_from_slice(&largest_root.to_be_bytes());
    h[56..60].copy_from_slice(&1u32.to_be_bytes());
    h[92..96].copy_from_slice(&1u32.to_be_bytes());
    h
}

#[test]
fn varints_read_one_to_nine_bytes() {
    let mut cursor = 0;
    assert_eq!(varint(&[0x7f], &mut cursor), Ok(0x7f));
    assert_eq!(cursor, 1);
    let mut cursor = 0;
    assert_eq!(varint(&[0x81, 0x00], &mut cursor), Ok(0x80));
    assert_eq!(cursor, 2);
    let mut cursor = 0;
    assert_eq!(varint(&[0xff; 9], &mut cursor), Ok(u64::MAX));
    assert_eq!(cursor, 9);
    let mut cursor = 0;
    assert_eq!(varint(&[0x81], &mut cursor), Err(()));
}

#[test]
fn geometry_refuses_damaged_headers() {
    let mut image = header(512, 1, 0);
    image.resize(512, 0);
    let geometry = decode_geometry(&image, 512).unwrap();
    assert_eq!(geometry.page_size, 512);
    assert_eq!(geometry.page_count, 1);
    assert_eq!(geometry.text_encoding, TextEncoding::Utf8);
    assert_eq!(decode_geometry(&image[..50], 512), Err(InspectionError::IncompleteHeader));
    let mut bad = image.clone();
    bad[0] = b'X';
    assert_eq!(decode_geometry(&bad, 512), Err(InspectionError::InvalidMagic));
    let mut odd = image.clone();
    odd[16..18].copy_from_slice(&1000u16.to_be_bytes());
    assert_eq!(decode_geometry(&odd, 512), Err(InspectionError::InvalidPageSize(1000)));
    assert_eq!(decode_geometry(&image, 700), Err(InspectionError::IncompletePage));
    assert_eq!(decode_geometry(&image, 100), Err(InspectionError::MissingFirstPage));
}

#[test]
fn text_decodes_in_the_database_encoding() {
    assert_eq!(decode_text("h\u{e9}".as_bytes(), TextEncoding::Utf8).as_deref(), Ok("h\u{e9}"));
    assert_eq!(decode_text(&[0xff, 0xfe], TextEncoding::Utf8), Err(()));
    assert_eq!(decode_text(&[0x68, 0x00, 0xe9, 0x00], TextEncoding::Utf16Le).as_deref(), Ok("h\u{e9}"));
    assert_eq!(decode_text(&[0x00, 0x68, 0x00, 0xe9], TextEncoding::Utf16Be).as_deref(), Ok("h\u{e9}"));
    assert_eq!(decode_text(&[0x00, 0xd8], TextEncoding::Utf16Le), Err(()));
}

#[test]
fn values_decode_by_serial_type() {
    assert_eq!(decode_value(0, &[], TextEncoding::Utf8), Ok(TypedValue::Null));
    assert_eq!(decode_value(1, &[0xff], TextEncoding::Utf8), Ok(TypedValue::Integer { value: -1 }));
    assert_eq!(decode_value(2, &[0x01, 0x00], TextEncoding::Utf8), Ok(TypedValue::Integer { value: 256 }));
    assert_eq!(decode_value(8, &[], TextEncoding::Utf8), Ok(TypedValue::Integer { value: 0 }));
    assert_eq!(decode_value(9, &[], TextEncoding::Utf8), Ok(TypedValue::Integer { value: 1 }));
    assert_eq!(
        decode_value(7, &1.5f64.to_bits().to_be_bytes(), TextEncoding::Utf8),
        Ok(TypedValue::Real { bits: 1.5f64.to_bits() })
    );
    assert_eq!(decode_value(14, &[1], TextEncoding::Utf8), Ok(TypedValue::Blob { byte_length: 1 }));
    assert_eq!(
        decode_value(17, &[b'a', b'b'], TextEncoding::Utf8),
        Ok(TypedValue::Text { value: "ab".to_string() })
    );
}

#[test]
fn pointer_map_kinds_and_roles() {
    assert_eq!(map_kind(1), Some(PointerMapKind::BtreeRoot));
    assert_eq!(map_kind(5), Some(PointerMapKind::BtreeChild));
    assert_eq!(map_kind(0), None);
    assert_eq!(map_kind(6), None);
    assert_eq!(PointerMapKind::Freelist.role(), PageRole::Freelist);
    assert_eq!(PointerMapKind::FirstOverflow.role(), PageRole::Overflow);
}

#[test]
fn a_database_without_auto_vacuum_keeps_no_pointer_map() {
    let mut image = header(512, 2, 0);
    image.resize(1024, 0);
    let geometry = decode_geometry(&image, 1024).unwrap();
    let evidence = PointerMapEvidence::header(&geometry);
    assert!(!evidence.applicable);
    assert!(evidence.layout.is_none());
}

#[test]
fn an_auto_vacuum_database_lays_out_its_pointer_map() {
    let mut image = header(512, 3, 3);
    image.resize(1536, 0);
    let geometry = decode_geometry(&image, 1536).unwrap();
    let evidence = PointerMapEvidence::header(&geometry);
    assert!(evidence.applicable);
    let layout = evidence.layout.expect("auto-vacuum layout");
    assert_eq!(layout.entries_per_page, 512 / 5);
    assert_eq!(layout.stride, 512 / 5 + 1);
}

#[test]
fn a_shared_stop_signal_is_observed_by_every_holder() {
    let signal = StopSignal::new();
    let shared = signal.share();
    assert_eq!(shared.observe(), 0);
    signal.stop();
    assert_eq!(shared.observe(), 2);
    let other = StopSignal::new();
    other.cancel();
    assert_eq!(other.observe(), 1);
}
