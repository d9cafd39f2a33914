//! End-to-end tests over a hand-built database file: schema resolution,
//! scans, point lookups, index probes and query execution.

use sqlite_reader::btree::BtreeSearch;
use sqlite_reader::cell::{Cell, RecordValue};
use sqlite_reader::schema_table::Schema;
use sqlite_reader::db::Db;
use sqlite_reader::error::Error;
use sqlite_reader::page::{Page, PageBuffer, PageType};
use sqlite_reader::sql::{render_row, render_value, QueryOutput, Sql};
use sqlite_reader::table::{IndexRows, TableRows, TableSearch};
use sqlite_reader::varint::encode_varint;

const PAGE_SIZE: usize = 1024;

#[derive(Clone)]
enum V {
    Null,
    I(i64),
    T(&'static [u8]),
}

fn record(vals: &[V]) -> Vec<u8> {
    let mut types: Vec<u8> = Vec::new();
    let mut body: Vec<u8> = Vec::new();
    for v in vals {
        match v {
            V::Null => types.push(0),
            V::I(n) => {
                types.push(6);
                body.extend_from_slice(&(*n as u64).to_be_bytes());
            }
            V::T(s) => {
                types.extend_from_slice(&encode_varint((2 * s.len() + 13) as u64));
                body.extend_from_slice(s);
            }
        }
    }
    let hsize = 1 + types.len();
    assert!(hsize < 128);
    let mut out = vec![hsize as u8];
    out.extend_from_slice(&types);
    out.extend_from_slice(&body);
    out
}

fn leaf_table_cell(rowid: u64, rec: &[u8]) -> Vec<u8> {
    let mut out = encode_varint(rec.len() as u64);
    out.extend_from_slice(&encode_varint(rowid));
    out.extend_from_slice(rec);
    out
}

fn leaf_index_cell(rec: &[u8]) -> Vec<u8> {
    let mut out = encode_varint(rec.len() as u64);
    out.extend_from_slice(rec);
    out
}

fn interior_index_cell(left: u32, rec: &[u8]) -> Vec<u8> {
    let mut out = left.to_be_bytes().to_vec();
    out.extend_from_slice(&encode_varint(rec.len() as u64));
    out.extend_from_slice(rec);
    out
}

fn interior_table_cell(left: u32, rowid: u64) -> Vec<u8> {
    let mut out = left.to_be_bytes().to_vec();
    out.extend_from_slice(&encode_varint(rowid));
    out
}

/// Lays a page out: the header at `hoff`, the cell-pointer array after
/// it, the cells packed at the page's end in pointer order.
fn page(hoff: usize, kind: u8, rightmost: Option<u32>, cells: &[Vec<u8>]) -> Vec<u8> {
    let mut p = vec![0u8; PAGE_SIZE];
    let hsize = if kind == 0x05 || kind == 0x02 { 12 } else { 8 };
    let mut top = PAGE_SIZE;
    let mut offsets: Vec<u16> = Vec::new();
    for cell in cells {
        top -= cell.len();
        p[top..top + cell.len()].copy_from_slice(cell);
        offsets.push(top as u16);
    }
    p[hoff] = kind;
    p[hoff + 3..hoff + 5].copy_from_slice(&(cells.len() as u16).to_be_bytes());
    p[hoff + 5..hoff + 7].copy_from_slice(&(top as u16).to_be_bytes());
    if let Some(rm) = rightmost {
        p[hoff + 8..hoff + 12].copy_from_slice(&rm.to_be_bytes());
    }
    for (i, off) in offsets.iter().enumerate() {
        let at = hoff + hsize + 2 * i;
        p[at..at + 2].copy_from_slice(&off.to_be_bytes());
    }
    p
}

/// The test database: tables `apples` (one leaf), `oranges` (an empty
/// leaf) and `pears` (an interior page over two leaves), and an index
/// `idx_color` on `apples (color)`.
fn sample_db() -> Db {
    let schema_cells = vec![
        leaf_table_cell(
            1,
            &record(&[
                V::T(b"table"),
                V::T(b"apples"),
                V::T(b"apples"),
                V::I(2),
                V::T(b"CREATE TABLE apples (id integer primary key, name text, color text)"),
            ]),
        ),
        leaf_table_cell(
            2,
            &record(&[
                V::T(b"table"),
                V::T(b"oranges"),
                V::T(b"oranges"),
                V::I(3),
                V::T(b"CREATE TABLE oranges (id integer primary key, name text)"),
            ]),
        ),
        leaf_table_cell(
            3,
            &record(&[
                V::T(b"index"),
                V::T(b"idx_color"),
                V::T(b"apples"),
                V::I(4),
                V::T(b"CREATE INDEX idx_color on apples (color)"),
            ]),
        ),
        leaf_table_cell(
            4,
            &record(&[
                V::T(b"table"),
                V::T(b"pears"),
                V::T(b"pears"),
                V::I(5),
                V::T(b"CREATE TABLE pears (id integer primary key, name text)"),
            ]),
        ),
        leaf_table_cell(
            5,
            &record(&[
                V::T(b"table"),
                V::T(b"berries"),
                V::T(b"berries"),
                V::I(9),
                V::T(b"CREATE TABLE berries (id integer primary key, name text, color text)"),
            ]),
        ),
        leaf_table_cell(
            6,
            &record(&[
                V::T(b"index"),
                V::T(b"idx_berry_color"),
                V::T(b"berries"),
                V::I(10),
                V::T(b"CREATE INDEX idx_berry_color on berries (color)"),
            ]),
        ),
    ];
    let page1 = page(100, 0x0d, None, &schema_cells);

    let apple_rows = vec![
        leaf_table_cell(1, &record(&[V::Null, V::T(b"Granny Smith"), V::T(b"Light Green")])),
        leaf_table_cell(2, &record(&[V::Null, V::T(b"Fuji"), V::T(b"Red")])),
        leaf_table_cell(3, &record(&[V::Null, V::T(b"Honeycrisp"), V::T(b"Blush Red")])),
        leaf_table_cell(4, &record(&[V::Null, V::T(b"Golden Delicious"), V::T(b"Yellow")])),
    ];
    let page2 = page(0, 0x0d, None, &apple_rows);

    let page3 = page(0, 0x0d, None, &[]);

    // the index entries, ordered by key bytes, rowid as tie-breaker
    let index_rows = vec![
        leaf_index_cell(&record(&[V::T(b"Blush Red"), V::I(3)])),
        leaf_index_cell(&record(&[V::T(b"Light Green"), V::I(1)])),
        leaf_index_cell(&record(&[V::T(b"Red"), V::I(2)])),
        leaf_index_cell(&record(&[V::T(b"Yellow"), V::I(4)])),
    ];
    let page4 = page(0, 0x0a, None, &index_rows);

    // pears: an interior page over two leaves
    let page5 = page(0, 0x05, Some(7), &[interior_table_cell(6, 2)]);
    let page6 = page(
        0,
        0x0d,
        None,
        &[
            leaf_table_cell(1, &record(&[V::Null, V::T(b"Bartlett")])),
            leaf_table_cell(2, &record(&[V::Null, V::T(b"Bosc")])),
        ],
    );
    let page7 = page(
        0,
        0x0d,
        None,
        &[
            leaf_table_cell(3, &record(&[V::Null, V::T(b"Anjou")])),
            leaf_table_cell(4, &record(&[V::Null, V::T(b"Comice")])),
        ],
    );

    // a deliberately corrupt page: an interior table page that names
    // itself as its child
    let page8 = page(0, 0x05, Some(8), &[interior_table_cell(8, 10)]);

    // berries: one leaf of rows, indexed by colour through a two-level
    // index B-tree whose interior cell itself carries an equal-key entry
    let page9 = page(
        0,
        0x0d,
        None,
        &[
            leaf_table_cell(1, &record(&[V::Null, V::T(b"Strawberry"), V::T(b"Red")])),
            leaf_table_cell(2, &record(&[V::Null, V::T(b"Blueberry"), V::T(b"Blue")])),
            leaf_table_cell(3, &record(&[V::Null, V::T(b"Blackberry"), V::T(b"Black")])),
            leaf_table_cell(4, &record(&[V::Null, V::T(b"Cranberry"), V::T(b"Red")])),
            leaf_table_cell(5, &record(&[V::Null, V::T(b"Elderberry"), V::T(b"Black")])),
        ],
    );
    // entries in (key, rowid) order: ("Black",3) | ("Black",5) | ("Blue",2), ("Red",1), ("Red",4)
    let page10 = page(
        0,
        0x02,
        Some(12),
        &[interior_index_cell(11, &record(&[V::T(b"Black"), V::I(5)]))],
    );
    let page11 = page(0, 0x0a, None, &[leaf_index_cell(&record(&[V::T(b"Black"), V::I(3)]))]);
    let page12 = page(
        0,
        0x0a,
        None,
        &[
            leaf_index_cell(&record(&[V::T(b"Blue"), V::I(2)])),
            leaf_index_cell(&record(&[V::T(b"Red"), V::I(1)])),
            leaf_index_cell(&record(&[V::T(b"Red"), V::I(4)])),
        ],
    );

    let mut file = Vec::new();
    for p in [
        page1, page2, page3, page4, page5, page6, page7, page8, page9, page10, page11, page12,
    ] {
        file.extend_from_slice(&p);
    }
    file[16..18].copy_from_slice(&(PAGE_SIZE as u16).to_be_bytes());
    Db::new(file)
}

fn run(db: &Db, query: &str) -> Result<QueryOutput, Error> {
    Sql::new(query.as_bytes())?.execute(db)
}

fn lines(out: QueryOutput) -> Vec<Vec<u8>> {
    match out {
        QueryOutput::Count(n) => vec![n.to_string().into_bytes()],
        QueryOutput::Rows(rows) => rows
            .iter()
            .map(|row| render_row(row).expect("row holds no float"))
            .collect(),
    }
}

#[test]
fn dbinfo_page_size_and_table_count() {
    let db = sample_db();
    assert_eq!(db.file_header().unwrap().page_size(), PAGE_SIZE as u16);
    assert_eq!(db.num_tables().unwrap(), 6);
}

#[test]
fn table_names_in_schema_order() {
    let db = sample_db();
    let names = db.table_names().unwrap();
    assert_eq!(
        names,
        vec![
            b"apples".to_vec(),
            b"oranges".to_vec(),
            b"apples".to_vec(),
            b"pears".to_vec(),
            b"berries".to_vec(),
            b"berries".to_vec()
        ]
    );
}

#[test]
fn count_rows_of_a_table() {
    let db = sample_db();
    assert_eq!(lines(run(&db, "SELECT COUNT(*) FROM apples").unwrap()), vec![b"4".to_vec()]);
}

#[test]
fn filter_by_equality() {
    let db = sample_db();
    // `color` is indexed, so force the scan path by adding `name`
    let out = run(
        &db,
        "SELECT name, color FROM apples WHERE color = 'Yellow' and name = 'Golden Delicious'",
    )
    .unwrap();
    assert_eq!(lines(out), vec![b"Golden Delicious|Yellow".to_vec()]);
}

#[test]
fn primary_key_projects_the_rowid() {
    let db = sample_db();
    let out = run(&db, "SELECT id, name FROM apples WHERE name = 'Fuji'").unwrap();
    match &out {
        QueryOutput::Rows(rows) => {
            assert_eq!(rows.len(), 1);
            assert!(matches!(rows[0][0], RecordValue::PrimaryKey(2)));
        }
        other => panic!("unexpected output: {other:?}"),
    }
    assert_eq!(lines(out), vec![b"2|Fuji".to_vec()]);
}

#[test]
fn index_probe_finds_matching_rows() {
    let db = sample_db();
    let out = run(&db, "SELECT name FROM apples WHERE color = 'Yellow'").unwrap();
    assert_eq!(lines(out), vec![b"Golden Delicious".to_vec()]);
}

#[test]
fn index_probe_agrees_with_scan_filter() {
    let db = sample_db();
    for color in ["Blush Red", "Light Green", "Red", "Yellow", "Chartreuse"] {
        // the single-condition query takes the index path; the
        // two-condition query repeats the predicate and takes the scan
        let probe = run(&db, &format!("SELECT id FROM apples WHERE color = '{color}'")).unwrap();
        let scan = run(
            &db,
            &format!("SELECT id FROM apples WHERE color = '{color}' and color = '{color}'"),
        )
        .unwrap();
        assert_eq!(lines(probe), lines(scan));
    }
}

#[test]
fn full_scan_yields_ascending_rowids() {
    let db = sample_db();
    let cells = sqlite_reader::btree::scan_table(&db, 5).unwrap();
    let rowids: Vec<u64> = cells.iter().map(|c| c.rowid().unwrap()).collect();
    assert_eq!(rowids, vec![1, 2, 3, 4]);
}

#[test]
fn point_lookup_returns_the_scanned_row() {
    let db = sample_db();
    let cells = sqlite_reader::btree::scan_table(&db, 5).unwrap();
    for cell in &cells {
        let rowid = cell.rowid().unwrap();
        let found = sqlite_reader::btree::lookup_table(&db, 5, rowid)
            .unwrap()
            .expect("a scanned rowid must be found again");
        assert_eq!(found.rowid(), cell.rowid());
    }
    assert!(sqlite_reader::btree::lookup_table(&db, 5, 99).unwrap().is_none());
}

#[test]
fn empty_leaf_yields_no_rows() {
    let db = sample_db();
    assert_eq!(lines(run(&db, "SELECT COUNT(*) FROM oranges").unwrap()), vec![b"0".to_vec()]);
    match run(&db, "SELECT name FROM oranges").unwrap() {
        QueryOutput::Rows(rows) => assert!(rows.is_empty()),
        other => panic!("unexpected output: {other:?}"),
    }
}

#[test]
fn multi_page_table_scans_and_counts() {
    let db = sample_db();
    assert_eq!(lines(run(&db, "SELECT count(*) FROM pears").unwrap()), vec![b"4".to_vec()]);
    let out = run(&db, "SELECT id, name FROM pears").unwrap();
    assert_eq!(
        lines(out),
        vec![
            b"1|Bartlett".to_vec(),
            b"2|Bosc".to_vec(),
            b"3|Anjou".to_vec(),
            b"4|Comice".to_vec()
        ]
    );
}

#[test]
fn interior_index_without_reaching_keys_descends_rightmost() {
    let db = sample_db();
    // an interior index page whose single cell key is "Light Green",
    // with right-most child 4
    let rec = record(&[V::T(b"Light Green"), V::I(1)]);
    let p = page(0, 0x02, Some(4), &[interior_index_cell(9, &rec)]);
    let view = Page::builder().header_offset(0).buffer(PageBuffer(p)).build();
    match view.btree_search(0, b"Zucchini").unwrap() {
        sqlite_reader::btree::BtreeIndexSearch::PointerOrRowId(child, fallback) => {
            assert_eq!(child, 4);
            assert!(fallback.is_none());
        }
        other => panic!("unexpected step: {other:?}"),
    }
    let _ = db;
}

#[test]
fn unknown_table_and_bad_queries() {
    let db = sample_db();
    assert_eq!(run(&db, "SELECT name FROM nowhere"), Err(Error::UnknownTable));
    assert_eq!(run(&db, "SELEC name FROM apples"), Err(Error::ParseError));
    assert_eq!(
        run(&db, "SELECT nosuch FROM apples"),
        Ok(QueryOutput::Rows(vec![vec![], vec![], vec![], vec![]]))
    );
}

#[test]
fn page_access_errors() {
    let db = sample_db();
    assert_eq!(db.page(0).err(), Some(Error::PageNumberZero));
    assert_eq!(db.page(99).err(), Some(Error::PageOutOfRange));
    let short = Db::new(vec![0u8; 50]);
    assert_eq!(short.file_header().err(), Some(Error::UnexpectedEof));
}

#[test]
fn wrong_page_kind_is_a_typed_error() {
    let db = sample_db();
    // page 4 is an index leaf: a table descent must refuse it
    let p = db.page(4).unwrap();
    assert_eq!(p.btree_scan(1).err(), Some(Error::UnexpectedPageType));
    // page 2 is a table leaf: an index search must refuse it
    let p = db.page(2).unwrap();
    assert_eq!(p.btree_search(0, b"x").err(), Some(Error::UnexpectedPageType));
}

#[test]
fn cyclic_tree_is_reported_corrupt() {
    let db = sample_db();
    assert_eq!(
        sqlite_reader::btree::scan_table(&db, 8).err(),
        Some(Error::CorruptBtree)
    );
}

#[test]
fn invalid_page_type_byte() {
    assert_eq!(PageType::new(0x03), Err(Error::InvalidPageType(0x03)));
    assert!(matches!(PageType::new(0x0d), Ok(PageType::LeafTable)));
}

#[test]
fn page_header_and_cells_decode() {
    let db = sample_db();
    let p = db.page(2).unwrap();
    let h = p.header().unwrap();
    assert!(matches!(h.kind, PageType::LeafTable));
    assert_eq!(h.num_of_cells, 4);
    assert!(h.right_most_pointer.is_none());
    assert_eq!(p.num_cells().unwrap(), 4);
    let cells = p.cells().unwrap();
    assert_eq!(cells.len(), 4);
    assert_eq!(cells[0].rowid(), Some(1));
    assert!(cells[0].left().is_none());
    match p.btree_scan(3).unwrap() {
        BtreeSearch::Leaf(Some(cell)) => assert_eq!(cell.rowid(), Some(3)),
        other => panic!("unexpected step: {other:?}"),
    }
}

#[test]
fn rendering_values() {
    assert_eq!(render_value(&RecordValue::Null).unwrap(), b"NULL".to_vec());
    assert_eq!(render_value(&RecordValue::Int(-7)).unwrap(), b"-7".to_vec());
    assert_eq!(render_value(&RecordValue::PrimaryKey(9)).unwrap(), b"9".to_vec());
    assert_eq!(
        render_value(&RecordValue::Blob(vec![1, 2, 30])).unwrap(),
        b"[1, 2, 30]".to_vec()
    );
    assert_eq!(render_value(&RecordValue::Blob(vec![])).unwrap(), b"[]".to_vec());
    assert!(render_value(&RecordValue::Float(0x3ff0000000000000)).is_none());
    assert_eq!(
        render_row(&vec![
            RecordValue::Text(b"foo".to_vec()),
            RecordValue::Int(5),
            RecordValue::Null
        ])
        .unwrap(),
        b"foo|5|NULL".to_vec()
    );
    assert_eq!(render_row(&vec![]).unwrap(), b"".to_vec());
}

#[test]
fn schema_rows_reject_malformed_cells() {
    let rec = record(&[V::T(b"table"), V::T(b"t"), V::T(b"t"), V::T(b"notanumber"), V::T(b"sql")]);
    let bytes = leaf_table_cell(1, &rec);
    let cell = Cell::new(PageType::LeafTable, &bytes, 0).unwrap();
    assert_eq!(Schema::new(&cell).err(), Some(Error::MalformedSchema));

    let rec = record(&[V::T(b"table"), V::T(b"t")]);
    let bytes = leaf_table_cell(1, &rec);
    let cell = Cell::new(PageType::LeafTable, &bytes, 0).unwrap();
    assert_eq!(Schema::new(&cell).err(), Some(Error::MalformedSchema));
}

#[test]
fn record_consumed_matches_declared_lengths() {
    // the record's bytes: one header byte, two type bytes, then bodies
    // of 8 and 3 bytes — decoding consumes exactly 3 + 8 + 3 bytes and
    // leaves trailing bytes untouched
    let mut bytes = record(&[V::I(300), V::T(b"abc")]);
    let expected = bytes.clone();
    bytes.extend_from_slice(b"junk");
    let rec = sqlite_reader::cell::Record::new(&bytes).unwrap();
    assert!(matches!(rec.column(0), Some(RecordValue::Int(300))));
    assert_eq!(expected.len(), 3 + 8 + 3);
}

#[test]
fn table_rows_iterator_steps_through_the_scan() {
    let db = sample_db();
    let mut scan = TableRows::new(5);
    let mut rowids = Vec::new();
    while let Some(row) = scan.next(&db).unwrap() {
        rowids.push(row.rowid());
    }
    assert_eq!(rowids, vec![1, 2, 3, 4]);
    assert!(scan.next(&db).unwrap().is_none());

    let mut probe = IndexRows::new(4, b"Yellow".to_vec());
    assert_eq!(probe.next(&db).unwrap(), Some(4));
    assert!(probe.next(&db).unwrap().is_none());

    let table = db.table(b"apples").unwrap();
    let mut search = TableSearch::Index(IndexRows::new(4, b"Red".to_vec()));
    let row = search.next(&db, &table).unwrap().expect("an indexed row");
    assert_eq!(row.rowid(), 2);
    assert!(search.next(&db, &table).unwrap().is_none());
}

#[test]
fn get_row_and_column_projection() {
    let db = sample_db();
    let table = db.table(b"apples").unwrap();
    let row = table.get_row(&db, 3).unwrap().expect("rowid 3 exists");
    assert_eq!(
        row.col(&table, b"name").unwrap(),
        RecordValue::Text(b"Honeycrisp".to_vec())
    );
    assert_eq!(row.col(&table, b"id").unwrap(), RecordValue::PrimaryKey(3));
    assert_eq!(row.col(&table, b"nosuch"), Err(Error::UnknownColumn));
    assert!(table.get_row(&db, 42).unwrap().is_none());
}

#[test]
fn two_level_index_probe_uses_the_interior_fallback() {
    let db = sample_db();
    // the equal-key entry ("Black", 5) sits in the interior index cell:
    // once the leaf on its left is exhausted the probe must fall back
    // to it
    let out = run(&db, "SELECT id FROM berries WHERE color = 'Black'").unwrap();
    assert_eq!(lines(out), vec![b"3".to_vec(), b"5".to_vec()]);
    let out = run(&db, "SELECT name FROM berries WHERE color = 'Red'").unwrap();
    assert_eq!(
        lines(out),
        vec![b"Strawberry".to_vec(), b"Cranberry".to_vec()]
    );
    let out = run(&db, "SELECT name FROM berries WHERE color = 'Blue'").unwrap();
    assert_eq!(lines(out), vec![b"Blueberry".to_vec()]);

    // the raw step: past rowid 3, the interior page still answers with
    // the fallback rowid of its own equal-key entry
    let p = db.page(10).unwrap();
    match p.btree_search(3, b"Black").unwrap() {
        sqlite_reader::btree::BtreeIndexSearch::PointerOrRowId(child, fallback) => {
            assert_eq!(child, 11);
            assert_eq!(fallback, Some(5));
        }
        other => panic!("unexpected step: {other:?}"),
    }
}

#[test]
fn two_level_index_probe_agrees_with_scan_filter() {
    let db = sample_db();
    for color in ["Black", "Blue", "Red", "White"] {
        // the single-condition query takes the index path; the repeated
        // predicate forces the scan
        let probe =
            run(&db, &format!("SELECT id, name FROM berries WHERE color = '{color}'")).unwrap();
        let scan = run(
            &db,
            &format!("SELECT id, name FROM berries WHERE color = '{color}' and color = '{color}'"),
        )
        .unwrap();
        assert_eq!(lines(probe), lines(scan));
    }
}
