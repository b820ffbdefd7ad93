use volmap_sqlite::geometry::decode_geometry;
use volmap_sqlite::inventory::{scan_pages, PageEntity};
use volmap_sqlite::roles::{PageClassification, PageRole};
use volmap_sqlite::schema::{
    inspect, record, virtual_table, SchemaBudget, SchemaDiagnostic, SchemaEvidence, SchemaObjectType, SchemaState,
};
use volmap_sqlite::signal::StopSignal;
use volmap_sqlite::topology::{PageIdentity, Topology, TraversalBudget, WorkControl};
use volmap_sqlite::tree_links::btree_traversals;

const PAGE: usize = 512;

fn header(page_count: u32) -> Vec<u8> {
    let mut h = vec![0u8; 100];
    h[..16].copy_from_slice(b"SQLite format 3\0");
    h[16] = 0x02;
    h[17] = 0x00;
    h[18] = 1;
    h[19] = 1;
    h[21] = 64;
    h[22] = 32;
    h[23] = 32;
    h[24..28].copy_from_slice(&1u32.to_be_bytes());
    h[28..32].copy_from_slice(&page_count.to_be_bytes());
    h[44..48].copy_from_slice(&4u32.to_be_bytes());
    h[56..60].copy_from_slice(&1u32.to_be_bytes());
    h[92..96].copy_from_slice(&1u32.to_be_bytes());
    h
}

fn text_serial(s: &str) -> u8 {
    (13 + 2 * s.len()) as u8
}

/// One schema row: type, name, table name, root page, declaration.
fn schema_payload(kind: &str, name: &str, table: &str, root: u8, sql: &str) -> Vec<u8> {
    let serials = [text_serial(kind), text_serial(name), text_serial(table), 1, text_serial(sql)];
    let mut payload = vec![6u8];
    payload.extend_from_slice(&serials);
    payload.extend_from_slice(kind.as_bytes());
    payload.extend_from_slice(name.as_bytes());
    payload.extend_from_slice(table.as_bytes());
    payload.push(root);
    payload.extend_from_slice(sql.as_bytes());
    payload
}

/// A table-leaf page holding `payloads` as cells, its header at `start`.
fn leaf_page(start: usize, payloads: &[Vec<u8>]) -> Vec<u8> {
    let mut page = vec![0u8; PAGE];
    let mut content = PAGE;
    let mut pointers = Vec::new();
    for (i, payload) in payloads.iter().enumerate() {
        let mut cell = vec![payload.len() as u8, (i + 1) as u8];
        cell.extend_from_slice(payload);
        content -= cell.len();
        page[content..content + cell.len()].copy_from_slice(&cell);
        pointers.push(content as u16);
    }
    page[start] = 0x0D;
    page[start + 3..start + 5].copy_from_slice(&(payloads.len() as u16).to_be_bytes());
    page[start + 5..start + 7].copy_from_slice(&(content as u16).to_be_bytes());
    for (i, pointer) in pointers.iter().enumerate() {
        let at = start + 8 + 2 * i;
        page[at..at + 2].copy_from_slice(&pointer.to_be_bytes());
    }
    page
}

/// A database whose schema page lists `rows`, followed by `extra` empty table leaves.
fn database(rows: &[Vec<u8>], extra: u32) -> Vec<u8> {
    let mut first = leaf_page(100, rows);
    first[..100].copy_from_slice(&header(1 + extra));
    let mut image = first;
    for _ in 0..extra {
        image.extend_from_slice(&leaf_page(0, &[]));
    }
    image
}

fn leaf_class() -> PageClassification {
    PageClassification { role: PageRole::TableLeaf, claims: Vec::new(), referenced: false, reconciled: true }
}

fn inspect_schema(image: &[u8]) -> (SchemaEvidence, Vec<PageEntity>) {
    let geometry = decode_geometry(image, image.len() as u64).expect("valid header");
    let signal = StopSignal::new();
    let (pages, _) = scan_pages(image, &geometry, 10_000, &signal);
    let mut control = WorkControl::new();
    let (traversals, _) = btree_traversals(&pages, &Vec::new(), true, u32::MAX, 10_000, &mut control);
    let mut topology = Topology::empty(TraversalBudget::default());
    topology.traversals = traversals;
    topology.classifications = (0..pages.len()).map(|_| leaf_class()).collect();
    let evidence = inspect(image, &geometry, &pages, &topology, &mut control, SchemaBudget::default());
    (evidence, pages)
}

#[test]
fn schema_object_is_attributed_to_its_validated_root() {
    let image = database(&[schema_payload("table", "t", "t", 2, "CREATE TABLE t(x)")], 1);
    let (evidence, pages) = inspect_schema(&image);
    assert_eq!(pages.len(), 2);
    assert_eq!(evidence.state, SchemaState::Complete);
    assert!(evidence.diagnostics.is_empty());
    assert_eq!(evidence.objects.len(), 1);
    let object = &evidence.objects[0];
    assert_eq!(object.object_type, Some(SchemaObjectType::Table));
    assert_eq!(object.name.as_deref(), Some("t"));
    assert_eq!(object.root_page, Some(2));
    assert_eq!(object.root, Some(PageIdentity { page_number: 2 }));
    assert_eq!(object.pages, vec![PageIdentity { page_number: 2 }]);
    assert_eq!(object.attributed_through, Some(2));
    assert_eq!(object.state, SchemaState::Complete);
    let payload_size = schema_payload("table", "t", "t", 2, "CREATE TABLE t(x)").len() as u64;
    assert_eq!(evidence.decoded_bytes, payload_size);
    assert_eq!(evidence.max_decoded_bytes, SchemaBudget::DEFAULT_MAX_DECODED_BYTES);
}

#[test]
fn competing_root_claims_are_withheld_from_both_objects() {
    let image = database(
        &[
            schema_payload("table", "a", "a", 2, "CREATE TABLE a(x)"),
            schema_payload("table", "b", "b", 2, "CREATE TABLE b(x)"),
        ],
        1,
    );
    let (evidence, _) = inspect_schema(&image);
    assert_eq!(evidence.objects.len(), 2);
    for object in &evidence.objects {
        assert_eq!(object.state, SchemaState::Unavailable);
        assert_eq!(object.root, None);
        assert!(object.pages.is_empty());
        assert_eq!(object.diagnostics, vec![SchemaDiagnostic::RootConflicting]);
    }
    assert_eq!(evidence.state, SchemaState::Partial);
}

#[test]
fn views_and_virtual_tables_without_storage_are_declaration_only() {
    let image = database(
        &[
            schema_payload("view", "v", "v", 0, "CREATE VIEW v AS SELECT 1"),
            schema_payload("table", "f", "f", 0, "CREATE VIRTUAL TABLE f USING fts5(x)"),
        ],
        0,
    );
    let (evidence, _) = inspect_schema(&image);
    assert_eq!(evidence.objects.len(), 2);
    for object in &evidence.objects {
        assert_eq!(object.state, SchemaState::DeclarationOnly);
        assert_eq!(object.root, None);
        assert!(object.diagnostics.is_empty());
    }
    assert_eq!(evidence.state, SchemaState::Complete);
}

#[test]
fn a_virtual_table_that_names_a_root_is_reported() {
    let image = database(&[schema_payload("table", "f", "f", 2, "create virtual table f using rtree(id)")], 1);
    let (evidence, _) = inspect_schema(&image);
    let object = &evidence.objects[0];
    assert_eq!(object.diagnostics, vec![SchemaDiagnostic::VirtualRootInvalid]);
    assert_eq!(object.state, SchemaState::Unavailable);
    assert_eq!(object.root, None);
}

#[test]
fn a_root_outside_any_tree_is_unavailable() {
    let image = database(&[schema_payload("index", "i", "t", 2, "CREATE INDEX i ON t(x)")], 1);
    let (evidence, _) = inspect_schema(&image);
    let object = &evidence.objects[0];
    assert_eq!(object.object_type, Some(SchemaObjectType::Index));
    assert_eq!(object.diagnostics, vec![SchemaDiagnostic::RootUnavailable]);
    assert_eq!(object.root, None);
}

#[test]
fn the_decode_allowance_stops_at_the_cell_that_exceeds_it() {
    let row = schema_payload("table", "t", "t", 2, "CREATE TABLE t(x)");
    let image = database(&[row.clone(), row.clone()], 1);
    let geometry = decode_geometry(&image, image.len() as u64).unwrap();
    let signal = StopSignal::new();
    let (pages, _) = scan_pages(&image, &geometry, 10_000, &signal);
    let mut control = WorkControl::new();
    let (traversals, _) = btree_traversals(&pages, &Vec::new(), true, u32::MAX, 10_000, &mut control);
    let mut topology = Topology::empty(TraversalBudget::default());
    topology.traversals = traversals;
    topology.classifications = (0..pages.len()).map(|_| leaf_class()).collect();
    let budget = SchemaBudget { max_decoded_bytes: row.len() as u64 + 1 };
    let evidence = inspect(&image, &geometry, &pages, &topology, &mut control, budget);
    assert_eq!(evidence.objects.len(), 1);
    assert_eq!(evidence.decoded_bytes, row.len() as u64);
    assert_eq!(evidence.diagnostics, vec![SchemaDiagnostic::DecodeBudget]);
    assert_eq!(evidence.state, SchemaState::Partial);
    let stopping = evidence.stopping_cell.expect("decoding stopped at a cell");
    assert_eq!(stopping.page_number, 1);
}

#[test]
fn a_file_without_a_schema_tree_has_unavailable_schema() {
    let image = database(&[], 0);
    let geometry = decode_geometry(&image, image.len() as u64).unwrap();
    let signal = StopSignal::new();
    let (pages, _) = scan_pages(&image, &geometry, 10_000, &signal);
    let topology = Topology::empty(TraversalBudget::default());
    let mut control = WorkControl::new();
    let evidence = inspect(&image, &geometry, &pages, &topology, &mut control, SchemaBudget::default());
    assert_eq!(evidence.state, SchemaState::Unavailable);
    assert_eq!(evidence.diagnostics, vec![SchemaDiagnostic::BtreeUnavailable]);
    assert_eq!(evidence.diagnostics[0].code(), "schema_btree_unavailable");
}

#[test]
fn schema_records_decode_their_five_columns() {
    let payload = schema_payload("index", "idx", "tbl", 7, "CREATE INDEX idx ON tbl(a)");
    let image = database(&[], 0);
    let geometry = decode_geometry(&image, image.len() as u64).unwrap();
    let row = record(&payload, &geometry).expect("valid record");
    assert_eq!(row.kind, SchemaObjectType::Index);
    assert_eq!(row.name, "idx");
    assert_eq!(row.table, "tbl");
    assert_eq!(row.root, Some(7));
    assert_eq!(row.sql.as_deref(), Some("CREATE INDEX idx ON tbl(a)"));
}

#[test]
fn an_unknown_object_type_is_refused() {
    let payload = schema_payload("thing", "x", "x", 2, "CREATE THING");
    let image = database(&[], 0);
    let geometry = decode_geometry(&image, image.len() as u64).unwrap();
    assert!(matches!(record(&payload, &geometry), Err(SchemaDiagnostic::ObjectTypeInvalid)));
}

#[test]
fn virtual_table_declarations_are_recognised_through_comments_and_case() {
    assert!(virtual_table("CREATE VIRTUAL TABLE f USING fts5(x)"));
    assert!(virtual_table("  create /* c */ Virtual -- note\n table f using x"));
    assert!(!virtual_table("CREATE TABLE virtual_table(x)"));
    assert!(!virtual_table("CREATE VIRTUALTABLE f"));
    assert!(!virtual_table("CREATE VIRTUAL TABLEf USING x"));
    assert!(!virtual_table("CREATE TABLÉ"));
    assert!(virtual_table("\u{3000}CREATE VIRTUAL TABLE f USING x"));
    assert!(!virtual_table("CREATE VIRTUAL TABLE\u{e9} USING x"));
    assert!(!virtual_table("CREATE VIRTUAL TABLE_x USING x"));
    assert!(virtual_table("CREATE VIRTUAL TABLE(x)"));
    assert!(!virtual_table("/* unterminated CREATE VIRTUAL TABLE f"));
}
