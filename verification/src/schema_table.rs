//! The schema table: page 1's rows name every table and index, with its
//! root page and its `CREATE ...` text.

use vstd::prelude::*;
use crate::cell::{Cell, CellModel, RecordValue, ValueModel};
use crate::db::Db;
use crate::error::Error;
use crate::page::PageNum;
use crate::strconv::{format_i64, parse_u32, spec_i64_dec, spec_parse_dec};

verus! {

/// The mathematical reading of one schema row.
pub struct SchemaModel {
    pub kind: Seq<u8>,
    pub name: Seq<u8>,
    pub tbl_name: Seq<u8>,
    pub rootpage: int,
    pub sql: Seq<u8>,
}

/// One row of the schema table: its object kind (`table`, `index`, …),
/// name, owning table's name, root page and `CREATE ...` text.
#[derive(Debug)]
pub struct Schema {
    pub kind: Vec<u8>,
    pub name: Vec<u8>,
    pub tbl_name: Vec<u8>,
    pub rootpage: PageNum,
    pub sql: Vec<u8>,
}

impl View for Schema {
    type V = SchemaModel;

    open spec fn view(&self) -> SchemaModel {
        SchemaModel {
            kind: self.kind@,
            name: self.name@,
            tbl_name: self.tbl_name@,
            rootpage: self.rootpage as int,
            sql: self.sql@,
        }
    }
}

/// The text a schema field presents: text bytes as they stand, an
/// integer in decimal, an absent value as `NULL`.  A float or a blob in
/// a schema field has no text.
pub open spec fn spec_schema_text(v: ValueModel) -> Option<Seq<u8>> {
    match v {
        ValueModel::Text(t) => Some(t),
        ValueModel::Int(n) => Some(spec_i64_dec(n)),
        ValueModel::PrimaryKey(n) => Some(spec_i64_dec(n)),
        ValueModel::Null => Some(seq![78u8, 85u8, 76u8, 76u8]),
        _ => None,
    }
}

/// The page number a schema row's fourth column names: a non-negative
/// integer no larger than a page number can be, written as an integer or
/// as decimal text.
pub open spec fn spec_rootpage_of(v: ValueModel) -> Option<int> {
    match v {
        ValueModel::Int(n) => if 0 <= n <= u32::MAX {
            Some(n)
        } else {
            None
        },
        ValueModel::PrimaryKey(n) => if 0 <= n <= u32::MAX {
            Some(n)
        } else {
            None
        },
        ValueModel::Text(t) => spec_parse_dec(t, u32::MAX as int),
        _ => None,
    }
}

/// The schema row a table-leaf cell holds: columns 0 to 4 as kind, name,
/// table name, root page and SQL text.  Anything else is a malformed
/// schema row.
pub open spec fn spec_schema_of(c: CellModel) -> Result<SchemaModel, Error> {
    match c {
        CellModel::LeafTable { rowid, payload } => {
            if payload.len() < 5 {
                Err(Error::MalformedSchema)
            } else {
                match (
                    spec_schema_text(payload[0]),
                    spec_schema_text(payload[1]),
                    spec_schema_text(payload[2]),
                    spec_rootpage_of(payload[3]),
                    spec_schema_text(payload[4]),
                ) {
                    (Some(kind), Some(name), Some(tbl_name), Some(rootpage), Some(sql)) => Ok(
                        SchemaModel { kind, name, tbl_name, rootpage, sql },
                    ),
                    _ => Err(Error::MalformedSchema),
                }
            }
        },
        _ => Err(Error::MalformedSchema),
    }
}

/// Renders one schema field's text, exactly as `spec_schema_text` reads
/// it.
fn schema_text(v: &RecordValue) -> (r: Option<Vec<u8>>)
    ensures
        match r {
            Some(b) => spec_schema_text(v@) == Some(b@),
            None => spec_schema_text(v@) is None,
        },
{
    match v {
        RecordValue::Text(t) => Some(crate::cell::copy_bytes(t)),
        RecordValue::Int(n) => Some(format_i64(*n)),
        RecordValue::PrimaryKey(n) => {
            if *n <= i64::MAX as u64 {
                Some(format_i64(*n as i64))
            } else {
                // rowids this large never occur; render digit by digit
                // through the unsigned formatter
                let r = crate::strconv::format_u64(*n);
                assert(spec_i64_dec(*n as int) == crate::strconv::spec_u64_dec(*n as int));
                Some(r)
            }
        },
        RecordValue::Null => {
            let out: Vec<u8> = vec![78u8, 85u8, 76u8, 76u8];
            assert(out@ =~= seq![78u8, 85u8, 76u8, 76u8]);
            Some(out)
        },
        _ => None,
    }
}

impl Schema {
    /// Reads one schema row out of a cell, exactly as `spec_schema_of`
    /// does: a malformed row — a non-table-leaf cell, a missing column,
    /// an unusable root page — is rejected.
    pub fn new(cell: &Cell) -> (r: Result<Schema, Error>)
        ensures
            match r {
                Ok(s) => spec_schema_of(cell@) matches Ok(m) && s@ == m,
                Err(e) => spec_schema_of(cell@) == Err::<SchemaModel, Error>(e),
            },
    {
        let payload = match cell {
            Cell::LeafTable { payload, .. } => payload,
            _ => {
                return Err(Error::MalformedSchema);
            },
        };
        if payload.0.len() < 5 {
            return Err(Error::MalformedSchema);
        }
        let kind = schema_text(&payload.0[0]);
        let name = schema_text(&payload.0[1]);
        let tbl_name = schema_text(&payload.0[2]);
        let sql = schema_text(&payload.0[4]);
        let rootpage: Option<u32> = match &payload.0[3] {
            RecordValue::Int(n) => {
                if 0 <= *n && *n <= u32::MAX as i64 {
                    Some(*n as u32)
                } else {
                    None
                }
            },
            RecordValue::PrimaryKey(n) => {
                if *n <= u32::MAX as u64 {
                    Some(*n as u32)
                } else {
                    None
                }
            },
            RecordValue::Text(t) => parse_u32(t.as_slice()),
            _ => None,
        };
        match (kind, name, tbl_name, rootpage, sql) {
            (Some(kind), Some(name), Some(tbl_name), Some(rootpage), Some(sql)) => Ok(
                Schema { kind, name, tbl_name, rootpage, sql },
            ),
            _ => Err(Error::MalformedSchema),
        }
    }

    /// The name of the table this row belongs to.
    pub fn tbl_name(&self) -> (r: &Vec<u8>)
        ensures
            r@ == self@.tbl_name,
    {
        &self.tbl_name
    }
}

/// The schema rows held by a sequence of page-1 cells, in cell order; a
/// malformed row is skipped.
pub open spec fn spec_schemas_from(cells: Seq<CellModel>, i: int) -> Seq<SchemaModel>
    decreases cells.len() - i,
{
    if i < 0 || i >= cells.len() {
        Seq::empty()
    } else {
        match spec_schema_of(cells[i]) {
            Ok(s) => seq![s] + spec_schemas_from(cells, i + 1),
            Err(_) => spec_schemas_from(cells, i + 1),
        }
    }
}

/// The views of a vector of schema rows.
pub open spec fn spec_schema_views(ss: Seq<Schema>) -> Seq<SchemaModel> {
    Seq::new(ss.len(), |i: int| ss[i]@)
}

impl Db {
    /// How many cells — schema rows, one per table or index — page 1
    /// holds.  Whenever the page is in the file and its header decodes,
    /// the count is owed; a failure is the page's absence or its
    /// header's own error.
    pub fn num_tables(&self) -> (r: Result<usize, Error>)
        ensures
            r matches Ok(n) ==> crate::page::spec_page_header(
                crate::db::spec_page_bytes(self@, 1),
                100,
            ) matches Ok(h) && n == h.num_of_cells,
            r matches Err(e) ==> !crate::db::spec_page_in_file(self@, 1)
                || crate::page::spec_page_header(crate::db::spec_page_bytes(self@, 1), 100)
                == Err::<crate::page::PageHeader, Error>(e),
    {
        let page = match self.schema_page() {
            Ok(p) => p,
            Err(e) => {
                return Err(e);
            },
        };
        page.num_cells()
    }

    /// Every well-formed schema row of page 1, in cell order, exactly as
    /// `spec_schemas_from` reads them.
    pub fn schemas(&self) -> (r: Result<Vec<Schema>, Error>)
        ensures
            r matches Ok(ss) ==> crate::page::spec_cells(crate::db::spec_page_bytes(self@, 1), 100)
                matches Ok(cells) && spec_schema_views(ss@) == spec_schemas_from(cells, 0),
            r matches Err(e) ==> !crate::db::spec_page_in_file(self@, 1) || crate::page::spec_cells(
                crate::db::spec_page_bytes(self@, 1),
                100,
            ) == Err::<Seq<crate::cell::CellModel>, Error>(e),
    {
        let page = match self.schema_page() {
            Ok(p) => p,
            Err(e) => {
                return Err(e);
            },
        };
        let ghost pbytes = crate::db::spec_page_bytes(self@, 1);
        proof {
            assert(page.buf@ == pbytes && page.header_offset == 100);
        }
        let cells = match page.cells() {
            Ok(cs) => cs,
            Err(e) => {
                return Err(e);
            },
        };
        let ghost ms = crate::page::spec_cells(pbytes, 100)->Ok_0;
        let mut out: Vec<Schema> = Vec::new();
        let mut i: usize = 0;
        while i < cells.len()
            invariant
                i <= cells@.len() == ms.len(),
                forall|j: int| 0 <= j < ms.len() ==> #[trigger] cells@[j]@ == ms[j],
                spec_schema_views(out@) + spec_schemas_from(ms, i as int) == spec_schemas_from(
                    ms,
                    0,
                ),
            decreases cells@.len() - i,
        {
            match Schema::new(&cells[i]) {
                Ok(s) => {
                    proof {
                        assert(spec_schemas_from(ms, i as int) == seq![s@] + spec_schemas_from(
                            ms,
                            i + 1,
                        ));
                        assert(spec_schema_views(out@.push(s)) =~= spec_schema_views(out@).push(
                            s@,
                        ));
                        assert(spec_schema_views(out@).push(s@) + spec_schemas_from(ms, i + 1)
                            =~= spec_schema_views(out@) + (seq![s@] + spec_schemas_from(
                            ms,
                            i + 1,
                        )));
                    }
                    out.push(s);
                },
                Err(_) => {},
            }
            i = i + 1;
        }
        assert(spec_schemas_from(ms, ms.len() as int) =~= Seq::<SchemaModel>::empty());
        assert(spec_schema_views(out@) + Seq::<SchemaModel>::empty() =~= spec_schema_views(out@));
        Ok(out)
    }

    /// The `tbl_name` of every schema row, in schema order.  Whenever
    /// page 1 is in the file and its cells decode, the names are owed;
    /// a failure is the page's absence or its cells' own error.
    pub fn table_names(&self) -> (r: Result<Vec<Vec<u8>>, Error>)
        ensures
            r matches Ok(names) ==> crate::page::spec_cells(
                crate::db::spec_page_bytes(self@, 1),
                100,
            ) matches Ok(cells) && {
                let ss = spec_schemas_from(cells, 0);
                names@.len() == ss.len() && (forall|j: int|
                    0 <= j < ss.len() ==> #[trigger] names@[j]@ == ss[j].tbl_name)
            },
            r matches Err(e) ==> !crate::db::spec_page_in_file(self@, 1) || crate::page::spec_cells(
                crate::db::spec_page_bytes(self@, 1),
                100,
            ) == Err::<Seq<crate::cell::CellModel>, Error>(e),
    {
        let schemas = match self.schemas() {
            Ok(ss) => ss,
            Err(e) => {
                return Err(e);
            },
        };
        let mut out: Vec<Vec<u8>> = Vec::new();
        let mut i: usize = 0;
        while i < schemas.len()
            invariant
                i <= schemas@.len(),
                out@.len() == i,
                forall|j: int| 0 <= j < i ==> #[trigger] out@[j]@ == schemas@[j]@.tbl_name,
            decreases schemas@.len() - i,
        {
            out.push(crate::cell::copy_bytes(&schemas[i].tbl_name));
            i = i + 1;
        }
        Ok(out)
    }
}

} // verus!