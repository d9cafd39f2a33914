//! Tables: their columns and indexes, assembled from the schema rows,
//! and their rows, reached by full scan, point lookup or index probe.

use vstd::prelude::*;
use crate::error::Error;
use crate::page::PageNum;
use crate::parsers::{
    parse_create_index, parse_create_table, spec_parse_create_index, spec_parse_create_table,
    spec_scan_word, spec_scan_word_or_ws, spec_skip_ws,
};
use crate::cell::{RecordValue, ValueModel};
use crate::schema_table::{Schema, SchemaModel};
use crate::strconv::{contains_sub, spec_contains_sub, spec_lower, to_lower};
use crate::text::bytes_eq;

verus! {

/// The mathematical reading of one column of a table.
pub struct ColumnModel {
    pub name: Seq<u8>,
    pub ctype: Seq<u8>,
    pub primary_key: bool,
}

/// One column of a table: its name, its declared type, and whether its
/// definition declares a primary key.
#[derive(Debug, PartialEq)]
pub struct TableColumn {
    pub name: Vec<u8>,
    pub ctype: Vec<u8>,
    pub primary_key: bool,
}

impl View for TableColumn {
    type V = ColumnModel;

    open spec fn view(&self) -> ColumnModel {
        ColumnModel { name: self.name@, ctype: self.ctype@, primary_key: self.primary_key }
    }
}

/// The words `primary key`, as bytes.
pub open spec fn spec_primary_key_text() -> Seq<u8> {
    seq![112u8, 114u8, 105u8, 109u8, 97u8, 114u8, 121u8, 32u8, 107u8, 101u8, 121u8]
}

/// The word `integer`, as bytes.
pub open spec fn spec_integer_text() -> Seq<u8> {
    seq![105u8, 110u8, 116u8, 101u8, 103u8, 101u8, 114u8]
}

/// The column a definition describes: its name — a run of word bytes,
/// or a double-quoted run of word and whitespace bytes — then at least
/// one whitespace byte, then its declared type, a run of word bytes.
/// The column is a primary key exactly when the lowercased definition
/// contains the words `primary key`.
pub open spec fn spec_parse_column(def: Seq<u8>) -> Result<ColumnModel, Error> {
    let named: Result<(Seq<u8>, int), Error> = if def.len() > 0 && def[0] == 34 {
        let e = spec_scan_word_or_ws(def, 1);
        if e > 1 && e < def.len() && def[e] == 34 {
            Ok((def.subrange(1, e), e + 1))
        } else {
            Err(Error::ParseError)
        }
    } else {
        let e = spec_scan_word(def, 0);
        if e > 0 {
            Ok((def.subrange(0, e), e))
        } else {
            Err(Error::ParseError)
        }
    };
    match named {
        Err(e) => Err(e),
        Ok((name, after)) => {
            let sp = spec_skip_ws(def, after);
            if sp == after {
                Err(Error::ParseError)
            } else {
                let te = spec_scan_word(def, sp);
                if te == sp {
                    Err(Error::ParseError)
                } else {
                    Ok(
                        ColumnModel {
                            name,
                            ctype: def.subrange(sp, te),
                            primary_key: spec_contains_sub(
                                spec_lower(def),
                                spec_primary_key_text(),
                            ),
                        },
                    )
                }
            }
        },
    }
}

impl TableColumn {
    /// Reads a column out of its definition text, exactly as
    /// `spec_parse_column` does.
    pub fn new(def: &[u8]) -> (r: Result<TableColumn, Error>)
        ensures
            match r {
                Ok(c) => spec_parse_column(def@) matches Ok(m) && c@ == m,
                Err(e) => spec_parse_column(def@) == Err::<ColumnModel, Error>(e),
            },
    {
        let (name, after) = if def.len() > 0 && def[0] == 34 {
            let e = crate::parsers::scan_word_or_ws(def, 1);
            if e > 1 && e < def.len() && def[e] == 34 {
                let n = match crate::utils::read_n_bytes(def, 1, e - 1) {
                    Ok(v) => v,
                    Err(_) => {
                        return Err(Error::ParseError);
                    },
                };
                (n, e + 1)
            } else {
                return Err(Error::ParseError);
            }
        } else {
            let e = crate::parsers::scan_word(def, 0);
            if e > 0 {
                let n = match crate::utils::read_n_bytes(def, 0, e) {
                    Ok(v) => v,
                    Err(_) => {
                        return Err(Error::ParseError);
                    },
                };
                (n, e)
            } else {
                return Err(Error::ParseError);
            }
        };
        let sp = crate::parsers::skip_ws(def, after);
        if sp == after {
            return Err(Error::ParseError);
        }
        let te = crate::parsers::scan_word(def, sp);
        if te == sp {
            return Err(Error::ParseError);
        }
        let ctype = match crate::utils::read_n_bytes(def, sp, te - sp) {
            Ok(v) => v,
            Err(_) => {
                return Err(Error::ParseError);
            },
        };
        let lowered = to_lower(def);
        let pk_text: [u8; 11] = [112, 114, 105, 109, 97, 114, 121, 32, 107, 101, 121];
        proof {
            assert(pk_text@ =~= spec_primary_key_text());
        }
        let primary_key = contains_sub(lowered.as_slice(), pk_text.as_slice());
        Ok(TableColumn { name, ctype, primary_key })
    }

    /// The column's name.
    pub fn name(&self) -> (r: &Vec<u8>)
        ensures
            r@ == self@.name,
    {
        &self.name
    }

    /// A rowid alias: declared `integer` (in any case) and a primary
    /// key.  Such a column's value is the cell's rowid, not a stored
    /// record value.
    pub fn is_rowid(&self) -> (r: bool)
        ensures
            r == spec_is_rowid(self@),
    {
        let low = to_lower(self.ctype.as_slice());
        let integer: [u8; 7] = [105, 110, 116, 101, 103, 101, 114];
        proof {
            assert(integer@ =~= spec_integer_text());
        }
        bytes_eq(low.as_slice(), integer.as_slice()) && self.primary_key
    }
}

/// A rowid alias: declared `integer` and a primary key.
pub open spec fn spec_is_rowid(c: ColumnModel) -> bool {
    spec_lower(c.ctype) == spec_integer_text() && c.primary_key
}

/// The mathematical reading of one index of a table.
pub struct IndexModel {
    pub name: Seq<u8>,
    pub columns: Seq<Seq<u8>>,
    pub rootpage: int,
}

/// One index of a table: its name, its ordered column names, and its
/// root page.
#[derive(Debug)]
pub struct TableIndex {
    pub name: Vec<u8>,
    pub columns: Vec<Vec<u8>>,
    pub rootpage: PageNum,
}

impl View for TableIndex {
    type V = IndexModel;

    open spec fn view(&self) -> IndexModel {
        IndexModel {
            name: self.name@,
            columns: crate::parsers::spec_views2(self.columns@),
            rootpage: self.rootpage as int,
        }
    }
}

impl TableIndex {
    /// Wraps an index's name, columns and root page.
    pub fn new(name: Vec<u8>, columns: Vec<Vec<u8>>, rootpage: PageNum) -> (r: TableIndex)
        ensures
            r@.name == name@,
            r@.columns == crate::parsers::spec_views2(columns@),
            r@.rootpage == rootpage as int,
    {
        TableIndex { name, columns, rootpage }
    }
}

/// The mathematical reading of a table.
pub struct TableModel {
    pub name: Seq<u8>,
    pub rootpage: int,
    pub columns: Seq<ColumnModel>,
    pub indexes: Seq<IndexModel>,
}

/// A table: its name, root page, columns and indexes, assembled from
/// the schema.
#[derive(Debug)]
pub struct Table {
    pub name: Vec<u8>,
    pub rootpage: PageNum,
    pub columns: Vec<TableColumn>,
    pub indexes: Vec<TableIndex>,
}

impl View for Table {
    type V = TableModel;

    open spec fn view(&self) -> TableModel {
        TableModel {
            name: self.name@,
            rootpage: self.rootpage as int,
            columns: Seq::new(self.columns@.len(), |i: int| self.columns@[i]@),
            indexes: Seq::new(self.indexes@.len(), |i: int| self.indexes@[i]@),
        }
    }
}

/// The columns the definitions of a `CREATE TABLE` text describe.
pub open spec fn spec_columns_of(defs: Seq<Seq<u8>>, i: int) -> Result<Seq<ColumnModel>, Error>
    decreases defs.len() - i,
{
    if i < 0 || i >= defs.len() {
        Ok(Seq::empty())
    } else {
        match spec_parse_column(defs[i]) {
            Err(e) => Err(e),
            Ok(c) => match spec_columns_of(defs, i + 1) {
                Err(e) => Err(e),
                Ok(rest) => Ok(seq![c] + rest),
            },
        }
    }
}

/// The indexes the `CREATE INDEX` schema rows describe.
pub open spec fn spec_indexes_of(iss: Seq<SchemaModel>, i: int) -> Result<Seq<IndexModel>, Error>
    decreases iss.len() - i,
{
    if i < 0 || i >= iss.len() {
        Ok(Seq::empty())
    } else {
        match spec_parse_create_index(iss[i].sql) {
            Err(e) => Err(e),
            Ok((_, (cols, iname))) => match spec_indexes_of(iss, i + 1) {
                Err(e) => Err(e),
                Ok(rest) => Ok(
                    seq![IndexModel { name: iname, columns: cols, rootpage: iss[i].rootpage }]
                        + rest,
                ),
            },
        }
    }
}

/// The table a `table` schema row and its `index` schema rows describe:
/// root page from the table row, columns from its `CREATE TABLE` text,
/// one index per `CREATE INDEX` row.
pub open spec fn spec_table_of(name: Seq<u8>, ts: SchemaModel, iss: Seq<SchemaModel>) -> Result<
    TableModel,
    Error,
> {
    match spec_parse_create_table(ts.sql) {
        Err(e) => Err(e),
        Ok((_, (defs, _))) => match spec_columns_of(defs, 0) {
            Err(e) => Err(e),
            Ok(columns) => match spec_indexes_of(iss, 0) {
                Err(e) => Err(e),
                Ok(indexes) => Ok(
                    TableModel { name, rootpage: ts.rootpage, columns, indexes },
                ),
            },
        },
    }
}

/// The word `table`, as bytes.
pub open spec fn spec_table_text() -> Seq<u8> {
    seq![116u8, 97u8, 98u8, 108u8, 101u8]
}

/// The word `index`, as bytes.
pub open spec fn spec_index_text() -> Seq<u8> {
    seq![105u8, 110u8, 100u8, 101u8, 120u8]
}

/// The last schema row of kind `table` for the named table, if any.
pub open spec fn spec_table_schema_of(ss: Seq<SchemaModel>, name: Seq<u8>) -> Option<SchemaModel>
    decreases ss.len(),
{
    if ss.len() == 0 {
        None
    } else {
        let last = ss[ss.len() - 1];
        if last.tbl_name == name && last.kind == spec_table_text() {
            Some(last)
        } else {
            spec_table_schema_of(ss.drop_last(), name)
        }
    }
}

/// The schema rows of kind `index` for the named table, in order.
pub open spec fn spec_index_schemas_of(ss: Seq<SchemaModel>, name: Seq<u8>) -> Seq<SchemaModel>
    decreases ss.len(),
{
    if ss.len() == 0 {
        Seq::empty()
    } else {
        let last = ss[ss.len() - 1];
        spec_index_schemas_of(ss.drop_last(), name) + (if last.tbl_name == name && last.kind
            == spec_index_text() {
            seq![last]
        } else {
            Seq::empty()
        })
    }
}

/// Collects a named table's schema rows and builds the table.
#[derive(Debug)]
pub struct TableBuilder {
    pub name: Vec<u8>,
    pub table_schema: Option<Schema>,
    pub index_schemas: Vec<Schema>,
}

impl TableBuilder {
    /// A fresh builder for the named table.
    pub fn new(name: &[u8]) -> (r: TableBuilder)
        ensures
            r.name@ == name@,
            r.table_schema is None,
            r.index_schemas@.len() == 0,
    {
        let owned = match crate::utils::read_n_bytes(name, 0, name.len()) {
            Ok(v) => v,
            Err(_) => {
                // unreachable: copying a whole slice cannot run out
                proof {
                    assert(false);
                }
                Vec::new()
            },
        };
        proof {
            assert(name@.subrange(0, name@.len() as int) =~= name@);
        }
        TableBuilder { name: owned, table_schema: None, index_schemas: Vec::new() }
    }

    /// Takes in the schema rows: the last `table` row for this table
    /// provides the root page and `CREATE TABLE` text, the `index` rows
    /// its indexes, in order.
    pub fn schemas(self, schemas: Vec<Schema>) -> (r: TableBuilder)
        ensures
            r.name@ == self.name@,
            match r.table_schema {
                Some(ts) => spec_table_schema_of(
                    crate::schema_table::spec_schema_views(schemas@),
                    self.name@,
                ) == Some(ts@),
                None => spec_table_schema_of(
                    crate::schema_table::spec_schema_views(schemas@),
                    self.name@,
                ) is None,
            },
            crate::schema_table::spec_schema_views(r.index_schemas@) == spec_index_schemas_of(
                crate::schema_table::spec_schema_views(schemas@),
                self.name@,
            ),
    {
        let table_text: [u8; 5] = [116, 97, 98, 108, 101];
        let index_text: [u8; 5] = [105, 110, 100, 101, 120];
        proof {
            assert(table_text@ =~= spec_table_text());
            assert(index_text@ =~= spec_index_text());
        }
        let mut table_schema: Option<Schema> = None;
        let mut index_schemas: Vec<Schema> = Vec::new();
        let mut i: usize = 0;
        let ghost all = crate::schema_table::spec_schema_views(schemas@);
        while i < schemas.len()
            invariant
                i <= schemas@.len(),
                all == crate::schema_table::spec_schema_views(schemas@),
                table_text@ == spec_table_text(),
                index_text@ == spec_index_text(),
                match table_schema {
                    Some(ts) => spec_table_schema_of(all.take(i as int), self.name@) == Some(ts@),
                    None => spec_table_schema_of(all.take(i as int), self.name@) is None,
                },
                crate::schema_table::spec_schema_views(index_schemas@) == spec_index_schemas_of(
                    all.take(i as int),
                    self.name@,
                ),
            decreases schemas@.len() - i,
        {
            let s = &schemas[i];
            proof {
                assert(all.take(i + 1).drop_last() =~= all.take(i as int));
                assert(all.take(i + 1)[i as int] == s@);
            }
            if bytes_eq(s.tbl_name.as_slice(), self.name.as_slice()) {
                if bytes_eq(s.kind.as_slice(), table_text.as_slice()) {
                    table_schema = Some(duplicate_schema(s));
                } else if bytes_eq(s.kind.as_slice(), index_text.as_slice()) {
                    let d = duplicate_schema(s);
                    proof {
                        assert(crate::schema_table::spec_schema_views(index_schemas@.push(d))
                            =~= crate::schema_table::spec_schema_views(index_schemas@).push(d@));
                        assert(spec_index_schemas_of(all.take(i as int), self.name@).push(s@)
                            =~= spec_index_schemas_of(all.take(i as int), self.name@)
                            + seq![s@]);
                    }
                    index_schemas.push(d);
                }
            }
            proof {
                if !(s@.tbl_name == self.name@ && s@.kind == spec_index_text()) {
                    assert(spec_index_schemas_of(all.take(i + 1), self.name@)
                        =~= spec_index_schemas_of(all.take(i as int), self.name@) + Seq::<
                        SchemaModel,
                    >::empty());
                }
            }
            i = i + 1;
        }
        proof {
            assert(all.take(schemas@.len() as int) =~= all);
        }
        TableBuilder { name: self.name, table_schema, index_schemas }
    }

    /// Builds the table: without a `table` schema row the table is
    /// unknown; its `CREATE TABLE` text yields the columns and each
    /// `CREATE INDEX` text an index, exactly as `spec_table_of` reads
    /// them.
    pub fn build(self) -> (r: Result<Table, Error>)
        ensures
            match r {
                Ok(t) => self.table_schema matches Some(ts) && spec_table_of(
                    self.name@,
                    ts@,
                    crate::schema_table::spec_schema_views(self.index_schemas@),
                ) matches Ok(m) && t@ == m,
                Err(e) => match self.table_schema {
                    None => e == Error::UnknownTable,
                    Some(ts) => spec_table_of(
                        self.name@,
                        ts@,
                        crate::schema_table::spec_schema_views(self.index_schemas@),
                    ) == Err::<TableModel, Error>(e),
                },
            },
    {
        let ts = match self.table_schema {
            Some(ts) => ts,
            None => {
                return Err(Error::UnknownTable);
            },
        };
        let ghost tsm = ts@;
        let ghost issviews = crate::schema_table::spec_schema_views(self.index_schemas@);
        let (_, (defs, _table)) = match parse_create_table(ts.sql.as_slice()) {
            Ok(r) => r,
            Err(e) => {
                return Err(e);
            },
        };
        let mut columns: Vec<TableColumn> = Vec::new();
        let mut i: usize = 0;
        let ghost defviews = crate::parsers::spec_views2(defs@);
        while i < defs.len()
            invariant
                i <= defs@.len(),
                defviews == crate::parsers::spec_views2(defs@),
                tsm == self.table_schema->0@,
                self.table_schema is Some,
                issviews == crate::schema_table::spec_schema_views(self.index_schemas@),
                spec_parse_create_table(tsm.sql) matches Ok(pr) && (pr.1).0 == defviews,
                columns@.len() == i,
                match spec_columns_of(defviews, i as int) {
                    Ok(rest) => spec_columns_of(defviews, 0) matches Ok(allc) && allc.len() == i
                        + rest.len() && (forall|j: int|
                        0 <= j < i ==> #[trigger] allc[j] == columns@[j]@) && (forall|j: int|
                        i <= j < allc.len() ==> #[trigger] allc[j] == rest[j - i]),
                    Err(e) => spec_columns_of(defviews, 0) == Err::<Seq<ColumnModel>, Error>(e),
                },
            decreases defs@.len() - i,
        {
            let c = match TableColumn::new(defs[i].as_slice()) {
                Ok(c) => c,
                Err(e) => {
                    return Err(e);
                },
            };
            proof {
                match spec_columns_of(defviews, i + 1) {
                    Ok(rest2) => {
                        assert(spec_columns_of(defviews, i as int) == Ok::<Seq<ColumnModel>, Error>(
                            seq![c@] + rest2,
                        ));
                    },
                    Err(_) => {},
                }
            }
            columns.push(c);
            i = i + 1;
        }
        assert(spec_columns_of(defviews, defs@.len() as int) == Ok::<Seq<ColumnModel>, Error>(
            Seq::empty(),
        ));
        let mut indexes: Vec<TableIndex> = Vec::new();
        let mut k: usize = 0;
        while k < self.index_schemas.len()
            invariant
                k <= self.index_schemas@.len(),
                issviews == crate::schema_table::spec_schema_views(self.index_schemas@),
                tsm == self.table_schema->0@,
                self.table_schema is Some,
                spec_parse_create_table(tsm.sql) matches Ok(pr) && (pr.1).0 == defviews,
                spec_columns_of(defviews, 0) matches Ok(allc) && allc.len() == columns@.len() && (
                forall|j: int|
                    0 <= j < columns@.len() ==> #[trigger] allc[j] == columns@[j]@),
                indexes@.len() == k,
                match spec_indexes_of(issviews, k as int) {
                    Ok(rest) => spec_indexes_of(issviews, 0) matches Ok(alli) && alli.len() == k
                        + rest.len() && (forall|j: int|
                        0 <= j < k ==> #[trigger] alli[j] == indexes@[j]@) && (forall|j: int|
                        k <= j < alli.len() ==> #[trigger] alli[j] == rest[j - k]),
                    Err(e) => spec_indexes_of(issviews, 0) == Err::<Seq<IndexModel>, Error>(e),
                },
            decreases self.index_schemas@.len() - k,
        {
            let schema = &self.index_schemas[k];
            let (_, (cols, iname)) = match parse_create_index(schema.sql.as_slice()) {
                Ok(r) => r,
                Err(e) => {
                    return Err(e);
                },
            };
            let idx = TableIndex::new(iname, cols, schema.rootpage);
            proof {
                match spec_indexes_of(issviews, k + 1) {
                    Ok(rest2) => {
                        assert(spec_indexes_of(issviews, k as int) == Ok::<Seq<IndexModel>, Error>(
                            seq![idx@] + rest2,
                        ));
                    },
                    Err(_) => {},
                }
            }
            indexes.push(idx);
            k = k + 1;
        }
        assert(spec_indexes_of(issviews, self.index_schemas@.len() as int) == Ok::<
            Seq<IndexModel>,
            Error,
        >(Seq::empty()));
        let t = Table { name: self.name, rootpage: ts.rootpage, columns, indexes };
        proof {
            assert(t@.columns =~= spec_columns_of(defviews, 0)->Ok_0);
            assert(t@.indexes =~= spec_indexes_of(issviews, 0)->Ok_0);
        }
        Ok(t)
    }
}

/// The index of the first column with the given name.
pub open spec fn spec_col_idx(cols: Seq<ColumnModel>, name: Seq<u8>) -> Option<int>
    decreases cols.len(),
{
    if cols.len() == 0 {
        None
    } else if cols[0].name == name {
        Some(0)
    } else {
        match spec_col_idx(cols.drop_first(), name) {
            Some(i) => Some(i + 1),
            None => None,
        }
    }
}

/// The first primary-key column, if any.
pub open spec fn spec_pk_col(cols: Seq<ColumnModel>) -> Option<ColumnModel>
    decreases cols.len(),
{
    if cols.len() == 0 {
        None
    } else if cols[0].primary_key {
        Some(cols[0])
    } else {
        spec_pk_col(cols.drop_first())
    }
}

/// The stored value of the named column: its positional record value,
/// or nothing when the name is unknown or the record is too short.
pub open spec fn spec_stored_col(t: TableModel, vals: Seq<ValueModel>, name: Seq<u8>) -> Result<
    ValueModel,
    Error,
> {
    match spec_col_idx(t.columns, name) {
        Some(i) => if i < vals.len() {
            Ok(vals[i])
        } else {
            Err(Error::UnknownColumn)
        },
        None => Err(Error::UnknownColumn),
    }
}

/// The value the named column presents for a row: the rowid itself when
/// the name is the table's rowid-alias primary key — such a column
/// stores no value — and the stored record value otherwise.
pub open spec fn spec_row_col(t: TableModel, rowid: int, vals: Seq<ValueModel>, name: Seq<u8>)
    -> Result<ValueModel, Error> {
    match spec_pk_col(t.columns) {
        Some(pc) => if pc.name == name && spec_is_rowid(pc) {
            Ok(ValueModel::PrimaryKey(rowid))
        } else {
            spec_stored_col(t, vals, name)
        },
        None => spec_stored_col(t, vals, name),
    }
}

/// One row of a table: its rowid and its decoded record.
#[derive(Debug)]
pub struct TableRow {
    pub rowid: crate::cell::RowId,
    pub record: crate::cell::Record,
}

impl View for TableRow {
    type V = crate::btree::RowModel;

    open spec fn view(&self) -> crate::btree::RowModel {
        (self.rowid as int, self.record@)
    }
}

impl TableRow {
    /// Wraps a table-leaf cell as a row; any other cell kind is a wrong
    /// turn.
    pub fn new(cell: crate::cell::Cell) -> (r: Result<TableRow, Error>)
        ensures
            match r {
                Ok(row) => cell@ matches crate::cell::CellModel::LeafTable { rowid, payload }
                    && row@ == (rowid, payload),
                Err(e) => !(cell@ is LeafTable) && e == Error::UnexpectedPageType,
            },
    {
        match cell {
            crate::cell::Cell::LeafTable { rowid, payload } => Ok(
                TableRow { rowid, record: payload },
            ),
            _ => Err(Error::UnexpectedPageType),
        }
    }

    /// The row's rowid.
    pub fn rowid(&self) -> (r: crate::cell::RowId)
        ensures
            r as int == self@.0,
    {
        self.rowid
    }

    /// The value the named column presents for this row, exactly as
    /// `spec_row_col` reads it: projecting an `INTEGER PRIMARY KEY`
    /// column always yields the rowid as an integer key, never the
    /// stored null.
    pub fn col(&self, table: &Table, name: &[u8]) -> (r: Result<RecordValue, Error>)
        ensures
            match r {
                Ok(v) => spec_row_col(table@, self@.0, self@.1, name@) matches Ok(m) && v@ == m,
                Err(e) => spec_row_col(table@, self@.0, self@.1, name@) == Err::<ValueModel, Error>(
                    e,
                ),
            },
    {
        let ghost t = table@;
        // the first primary-key column, if any
        let mut pk: Option<usize> = None;
        let mut i: usize = 0;
        proof {
            assert(t.columns.skip(0) =~= t.columns);
        }
        while i < table.columns.len()
            invariant
                i <= table.columns@.len(),
                t == table@,
                match pk {
                    Some(p) => p < i && spec_pk_col(t.columns) == Some(t.columns[p as int])
                        && table.columns@[p as int]@ == t.columns[p as int],
                    None => spec_pk_col(t.columns.skip(i as int)) == spec_pk_col(t.columns),
                },
            decreases table.columns@.len() - i,
        {
            if pk.is_none() {
                proof {
                    assert(t.columns.skip(i as int)[0] == t.columns[i as int]);
                    assert(t.columns.skip(i as int).drop_first() =~= t.columns.skip(i + 1));
                }
                if table.columns[i].primary_key {
                    pk = Some(i);
                }
            }
            i = i + 1;
        }
        proof {
            if pk is None {
                assert(t.columns.skip(t.columns.len() as int) =~= Seq::<ColumnModel>::empty());
            }
        }
        match pk {
            Some(p) => {
                let pc = &table.columns[p];
                if bytes_eq(pc.name.as_slice(), name) && pc.is_rowid() {
                    return Ok(RecordValue::PrimaryKey(self.rowid));
                }
            },
            None => {},
        }
        self.stored_col(table, name)
    }

    /// The stored value of the named column, exactly as
    /// `spec_stored_col` reads it.
    fn stored_col(&self, table: &Table, name: &[u8]) -> (r: Result<RecordValue, Error>)
        ensures
            match r {
                Ok(v) => spec_stored_col(table@, self@.1, name@) matches Ok(m) && v@ == m,
                Err(e) => spec_stored_col(table@, self@.1, name@) == Err::<ValueModel, Error>(e),
            },
    {
        let ghost t = table@;
        let mut i: usize = 0;
        proof {
            assert(t.columns.skip(0) =~= t.columns);
        }
        while i < table.columns.len()
            invariant
                i <= table.columns@.len(),
                t == table@,
                match spec_col_idx(t.columns.skip(i as int), name@) {
                    Some(k) => spec_col_idx(t.columns, name@) == Some(k + i),
                    None => spec_col_idx(t.columns, name@) is None,
                },
            decreases table.columns@.len() - i,
        {
            proof {
                assert(t.columns.skip(i as int)[0] == t.columns[i as int]);
                assert(t.columns.skip(i as int).drop_first() =~= t.columns.skip(i + 1));
            }
            if bytes_eq(table.columns[i].name.as_slice(), name) {
                assert(spec_col_idx(t.columns.skip(i as int), name@) == Some(0int));
                match self.record.column(i) {
                    Some(v) => {
                        return Ok(v);
                    },
                    None => {
                        return Err(Error::UnknownColumn);
                    },
                }
            }
            i = i + 1;
        }
        proof {
            assert(t.columns.skip(t.columns.len() as int) =~= Seq::<ColumnModel>::empty());
        }
        Err(Error::UnknownColumn)
    }
}

/// The first index whose column list is exactly the conditions' column
/// list, in order, with the first condition's literal as probe key.
pub open spec fn spec_use_index(t: TableModel, conds: Seq<(Seq<u8>, Seq<u8>)>) -> Option<
    (int, Seq<u8>),
> {
    match spec_first_index(t.indexes, conds, 0) {
        Some(i) => if conds.len() > 0 {
            Some((i, conds[0].1))
        } else {
            None
        },
        None => None,
    }
}

/// The first index at or after `i` whose columns match the conditions'.
pub open spec fn spec_first_index(
    idxs: Seq<IndexModel>,
    conds: Seq<(Seq<u8>, Seq<u8>)>,
    i: int,
) -> Option<int>
    decreases idxs.len() - i,
{
    if i < 0 || i >= idxs.len() {
        None
    } else if idxs[i].columns == Seq::new(conds.len(), |j: int| conds[j].0) {
        Some(i)
    } else {
        spec_first_index(idxs, conds, i + 1)
    }
}

/// The rows of `rows` that satisfy the conditions, in order.
pub open spec fn spec_filter_rows(
    rows: Seq<crate::btree::RowModel>,
    t: TableModel,
    conds: Seq<(Seq<u8>, Seq<u8>)>,
    i: int,
) -> Seq<crate::btree::RowModel>
    decreases rows.len() - i,
{
    if i < 0 || i >= rows.len() {
        Seq::empty()
    } else {
        (if crate::sql::spec_satisfies(t, rows[i].0, rows[i].1, conds) {
            seq![rows[i]]
        } else {
            Seq::empty()
        }) + spec_filter_rows(rows, t, conds, i + 1)
    }
}

/// The views of a vector of table rows.
/// The first row of `rows` whose rowid is `rid`, if any.
pub open spec fn spec_row_with(rows: Seq<crate::btree::RowModel>, rid: int) -> Option<
    crate::btree::RowModel,
>
    decreases rows.len(),
{
    if rows.len() == 0 {
        None
    } else if rows[0].0 == rid {
        Some(rows[0])
    } else {
        spec_row_with(rows.drop_first(), rid)
    }
}

/// The table's rows at the chain's rowids from position `i` on, in
/// chain order; a rowid the table does not hold is skipped.
pub open spec fn spec_chain_rows(
    all: Seq<crate::btree::RowModel>,
    chain: Seq<int>,
    i: int,
) -> Seq<crate::btree::RowModel>
    decreases chain.len() - i,
{
    if i < 0 || i >= chain.len() {
        Seq::empty()
    } else {
        (match spec_row_with(all, chain[i]) {
            Some(row) => seq![row],
            None => Seq::empty(),
        }) + spec_chain_rows(all, chain, i + 1)
    }
}

/// A found row carries the rowid it was sought by.
proof fn lemma_row_with_rowid(all: Seq<crate::btree::RowModel>, rid: int)
    requires
        spec_row_with(all, rid) is Some,
    ensures
        (spec_row_with(all, rid)->0).0 == rid,
    decreases all.len(),
{
    if all.len() > 0 && all[0].0 != rid {
        lemma_row_with_rowid(all.drop_first(), rid);
    }
}

/// In a sorted row sequence, the row found by rowid is the one holding
/// it.
proof fn lemma_row_with_found(all: Seq<crate::btree::RowModel>, rid: int, k: int)
    requires
        crate::btree::spec_rows_sorted(all),
        0 <= k < all.len(),
        all[k].0 == rid,
    ensures
        spec_row_with(all, rid) == Some(all[k]),
    decreases all.len(),
{
    if all[0].0 == rid {
        if k > 0 {
            assert(all[0].0 < all[k].0);
        }
    } else {
        assert(k >= 1);
        let rest = all.drop_first();
        assert forall|a: int, b: int| 0 <= a < b < rest.len() implies #[trigger] rest[a].0
            < #[trigger] rest[b].0 by {
            assert(rest[a] == all[a + 1] && rest[b] == all[b + 1]);
        }
        assert(rest[k - 1] == all[k]);
        lemma_row_with_found(rest, rid, k - 1);
    }
}

/// No row is found by a rowid the sequence nowhere holds.
proof fn lemma_row_with_absent(all: Seq<crate::btree::RowModel>, rid: int)
    requires
        forall|k: int| 0 <= k < all.len() ==> #[trigger] all[k].0 != rid,
    ensures
        spec_row_with(all, rid) is None,
    decreases all.len(),
{
    if all.len() > 0 {
        let rest = all.drop_first();
        assert forall|k: int| 0 <= k < rest.len() implies #[trigger] rest[k].0 != rid by {
            assert(rest[k] == all[k + 1]);
        }
        lemma_row_with_absent(rest, rid);
    }
}

/// The rows at a strictly ascending chain come out in strictly
/// ascending rowid order, each at or past the chain's first rowid.
proof fn lemma_chain_rows_sorted(all: Seq<crate::btree::RowModel>, chain: Seq<int>, i: int)
    requires
        0 <= i,
        forall|a: int, b: int| 0 <= a < b < chain.len() ==> #[trigger] chain[a] < #[trigger] chain[b],
    ensures
        crate::btree::spec_rows_sorted(spec_chain_rows(all, chain, i)),
        i < chain.len() ==> forall|k: int|
            0 <= k < spec_chain_rows(all, chain, i).len() ==> #[trigger] spec_chain_rows(
                all,
                chain,
                i,
            )[k].0 >= chain[i],
    decreases chain.len() - i,
{
    if i < chain.len() {
        lemma_chain_rows_sorted(all, chain, i + 1);
        let head: Seq<crate::btree::RowModel> = match spec_row_with(all, chain[i]) {
            Some(row) => seq![row],
            None => Seq::empty(),
        };
        let rest = spec_chain_rows(all, chain, i + 1);
        if spec_row_with(all, chain[i]) is Some {
            lemma_row_with_rowid(all, chain[i]);
        }
        assert(spec_chain_rows(all, chain, i) == head + rest);
        assert(forall|k: int| 0 <= k < head.len() ==> (head + rest)[k] == head[k]);
        assert(forall|k: int|
            head.len() <= k < head.len() + rest.len() ==> (head + rest)[k] == rest[k - head.len()]);
        assert forall|a: int, b: int|
            0 <= a < b < (head + rest).len() implies #[trigger] (head + rest)[a].0 < #[trigger] (
        head + rest)[b].0 by {
            if a >= head.len() {
            } else if b >= head.len() {
                assert((head + rest)[b].0 >= chain[i + 1]);
            }
        }
    }
}

pub open spec fn spec_row_views(rows: Seq<TableRow>) -> Seq<crate::btree::RowModel> {
    Seq::new(rows.len(), |i: int| rows[i]@)
}

/// What a point lookup answers on a well-formed table root: the table's
/// row with the sought rowid, nothing when the table has none, and never
/// a failure.
pub open spec fn spec_lookup_post(
    file: Seq<u8>,
    rootpage: int,
    rowid: int,
    r: Result<Option<TableRow>, Error>,
) -> bool {
    crate::btree::wf_table_root(file, rootpage) ==> match r {
        Ok(opt) => {
            let all = crate::btree::spec_rows_of_root(file, rootpage);
            match opt {
                Some(row) => exists|k: int|
                    0 <= k < all.len() && #[trigger] all[k] == row@ && all[k].0 == rowid,
                None => forall|k: int| 0 <= k < all.len() ==> #[trigger] all[k].0 != rowid,
            }
        },
        Err(_) => false,
    }
}

impl Table {
    /// A fresh builder for the named table.
    pub fn builder(name: &[u8]) -> (r: TableBuilder)
        ensures
            r.name@ == name@,
            r.table_schema is None,
            r.index_schemas@.len() == 0,
    {
        TableBuilder::new(name)
    }

    /// The table's name.
    pub fn name(&self) -> (r: &Vec<u8>)
        ensures
            r@ == self@.name,
    {
        &self.name
    }

    /// Looks one row up by rowid: a single B-tree descent, confirmed
    /// against the rowid found.  On a well-formed root it answers the
    /// table's row with that rowid, or nothing when there is none.
    pub fn get_row(&self, db: &crate::db::Db, rowid: crate::cell::RowId) -> (r: Result<
        Option<TableRow>,
        Error,
    >)
        ensures
            spec_lookup_post(db@, self@.rootpage, rowid as int, r),
    {
        let step = match crate::btree::lookup_table(db, self.rootpage, rowid) {
            Ok(s) => s,
            Err(e) => {
                return Err(e);
            },
        };
        match step {
            Some(cell) => {
                match TableRow::new(cell) {
                    Ok(row) => Ok(Some(row)),
                    Err(e) => Err(e),
                }
            },
            None => Ok(None),
        }
    }

    /// Probes index `i` for `key` and looks each yielded rowid up in the
    /// table B-tree.  On a well-formed table root, every returned row is
    /// a row of the table whose rowid the index pairs with the key.
    #[verifier::spinoff_prover]
    #[verifier::rlimit(100)]
    fn probe_index(&self, db: &crate::db::Db, i: usize, key: &Vec<u8>) -> (r: Result<
        Vec<TableRow>,
        Error,
    >)
        requires
            i < self@.indexes.len(),
        ensures
            crate::btree::wf_table_root(db@, self@.rootpage) ==> (r matches Ok(rows) ==> ({
                let all = crate::btree::spec_rows_of_root(db@, self@.rootpage);
                let chain = crate::index::spec_probe_chain(
                    db@,
                    self@.indexes[i as int].rootpage,
                    key@,
                    0,
                );
                &&& spec_row_views(rows@) == spec_chain_rows(all, chain, 0)
                &&& crate::btree::spec_rows_sorted(spec_row_views(rows@))
                &&& (forall|j: int|
                    #![trigger rows@[j]]
                    0 <= j < rows@.len() ==> crate::index::spec_entries_contain(
                        crate::index::spec_index_entries(
                            db@,
                            self@.indexes[i as int].rootpage,
                            crate::btree::spec_btree_fuel(db@),
                        ),
                        key@,
                        rows@[j]@.0,
                    ) && all.contains(rows@[j]@))
            })),
    {
        let ghost t = self@;
        let ghost km = key@;
        let ghost iroot = t.indexes[i as int].rootpage;
        let rids = match crate::index::index_rowids(db, self.indexes[i].rootpage, key.as_slice()) {
            Ok(r) => r,
            Err(e) => {
                return Err(e);
            },
        };
        let ghost fuel = crate::btree::spec_btree_fuel(db@);
        let ghost entries = crate::index::spec_index_entries(db@, iroot, fuel);
        let ghost chain = crate::index::spec_probe_chain(db@, iroot, km, 0);
        let ghost all = crate::btree::spec_rows_of_root(db@, t.rootpage);
        proof {
            if crate::btree::wf_table_root(db@, t.rootpage) {
                let hi = choose|hi: int|
                    0 <= hi <= u64::MAX && crate::btree::wf_table(
                        db@,
                        t.rootpage,
                        0,
                        hi,
                        crate::btree::spec_btree_fuel(db@),
                    );
                crate::btree::lemma_rows_sorted(
                    db@,
                    t.rootpage,
                    0,
                    hi,
                    crate::btree::spec_btree_fuel(db@),
                );
            }
            assert(spec_row_views(Seq::<TableRow>::empty()) + spec_chain_rows(all, chain, 0)
                =~= spec_chain_rows(all, chain, 0));
        }
        let mut out: Vec<TableRow> = Vec::new();
        let mut k: usize = 0;
        while k < rids.len()
            invariant
                k <= rids@.len(),
                t == self@,
                km == key@,
                i < t.indexes.len(),
                iroot == t.indexes[i as int].rootpage,
                fuel == crate::btree::spec_btree_fuel(db@),
                entries == crate::index::spec_index_entries(db@, iroot, fuel),
                chain == crate::index::spec_probe_chain(db@, iroot, km, 0),
                all == crate::btree::spec_rows_of_root(db@, t.rootpage),
                crate::index::spec_rowid_views(rids@) == chain,
                crate::btree::wf_table_root(db@, t.rootpage) ==> crate::btree::spec_rows_sorted(
                    all,
                ),
                forall|j: int|
                    0 <= j < rids@.len() ==> crate::index::spec_entries_contain(
                        entries,
                        km,
                        #[trigger] rids@[j] as int,
                    ),
                crate::btree::wf_table_root(db@, t.rootpage) ==> spec_row_views(out@)
                    + spec_chain_rows(all, chain, k as int) == spec_chain_rows(all, chain, 0),
                crate::btree::wf_table_root(db@, t.rootpage) ==> (forall|j: int|
                    #![trigger out@[j]]
                    0 <= j < out@.len() ==> crate::index::spec_entries_contain(
                        entries,
                        km,
                        out@[j]@.0,
                    ) && crate::btree::spec_rows_of_root(db@, t.rootpage).contains(out@[j]@)),
            decreases rids@.len() - k,
        {
            proof {
                assert(chain[k as int] == rids@[k as int] as int);
            }
            match crate::btree::lookup_table(db, self.rootpage, rids[k]) {
                Ok(Some(cell)) => {
                    let ghost cellm = cell@;
                    match TableRow::new(cell) {
                        Ok(row) => {
                            let ghost rowm = row@;
                            proof {
                                if crate::btree::wf_table_root(db@, t.rootpage) {
                                    assert(rowm == crate::btree::spec_row_of(cellm));
                                    let w = choose|w: int|
                                        0 <= w < all.len() && #[trigger] all[w]
                                            == crate::btree::spec_row_of(cellm) && all[w].0
                                            == rids@[k as int];
                                    assert(all[w] == rowm);
                                    assert(all.contains(rowm));
                                    assert(rowm.0 == rids@[k as int] as int);
                                    assert(crate::index::spec_entries_contain(entries, km, rowm.0));
                                    lemma_row_with_found(all, chain[k as int], w);
                                    assert(spec_chain_rows(all, chain, k as int) == seq![rowm]
                                        + spec_chain_rows(all, chain, k + 1));
                                }
                            }
                            let ghost oldout = out@;
                            out.push(row);
                            proof {
                                if crate::btree::wf_table_root(db@, t.rootpage) {
                                    assert(spec_row_views(oldout.push(row)) =~= spec_row_views(
                                        oldout,
                                    ).push(rowm));
                                    assert(spec_row_views(oldout).push(rowm) + spec_chain_rows(
                                        all,
                                        chain,
                                        k + 1,
                                    ) =~= spec_row_views(oldout) + (seq![rowm] + spec_chain_rows(
                                        all,
                                        chain,
                                        k + 1,
                                    )));
                                    assert forall|j: int|
                                        #![trigger out@[j]]
                                        0 <= j < out@.len()
                                            implies crate::index::spec_entries_contain(
                                        entries,
                                        km,
                                        out@[j]@.0,
                                    ) && crate::btree::spec_rows_of_root(db@, t.rootpage).contains(
                                        out@[j]@,
                                    ) by {
                                        if j < oldout.len() {
                                            assert(out@[j] == oldout[j]);
                                        } else {
                                            assert(out@[j]@ == rowm);
                                        }
                                    }
                                }
                            }
                        },
                        Err(_) => {
                            proof {
                                if crate::btree::wf_table_root(db@, t.rootpage) {
                                    // unreachable: the looked-up cell is a
                                    // table leaf
                                    assert(false);
                                }
                            }
                        },
                    }
                },
                Ok(None) => {
                    proof {
                        if crate::btree::wf_table_root(db@, t.rootpage) {
                            lemma_row_with_absent(all, chain[k as int]);
                            assert(spec_chain_rows(all, chain, k as int)
                                =~= Seq::<crate::btree::RowModel>::empty() + spec_chain_rows(
                                all,
                                chain,
                                k + 1,
                            ));
                            assert(Seq::<crate::btree::RowModel>::empty() + spec_chain_rows(
                                all,
                                chain,
                                k + 1,
                            ) =~= spec_chain_rows(all, chain, k + 1));
                        }
                    }
                },
                Err(e) => {
                    return Err(e);
                },
            }
            k = k + 1;
        }
        proof {
            if crate::btree::wf_table_root(db@, t.rootpage) {
                assert(spec_chain_rows(all, chain, rids@.len() as int)
                    =~= Seq::<crate::btree::RowModel>::empty());
                assert(spec_row_views(out@) + Seq::<crate::btree::RowModel>::empty()
                    =~= spec_row_views(out@));
                assert forall|a: int, b: int| 0 <= a < b < chain.len() implies #[trigger] chain[a]
                    < #[trigger] chain[b] by {
                    assert(chain[a] == rids@[a] as int && chain[b] == rids@[b] as int);
                    assert(rids@[a] < rids@[b]);
                }
                lemma_chain_rows_sorted(all, chain, 0);
            }
        }
        Ok(out)
    }

    /// Picks the first index whose columns are exactly the conditions'
    /// columns, exactly as `spec_use_index` does.
    fn use_index(&self, conditions: &crate::sql::Conditions) -> (r: Option<(usize, Vec<u8>)>)
        ensures
            match r {
                Some((i, key)) => spec_use_index(self@, conditions@) matches Some((im, km)) && i
                    == im && key@ == km && i < self.indexes@.len(),
                None => spec_use_index(self@, conditions@) is None,
            },
    {
        let ghost t = self@;
        let ghost conds = conditions@;
        let mut i: usize = 0;
        while i < self.indexes.len()
            invariant
                i <= self.indexes@.len(),
                t == self@,
                conds == conditions@,
                spec_first_index(t.indexes, conds, 0) == spec_first_index(
                    t.indexes,
                    conds,
                    i as int,
                ),
            decreases self.indexes@.len() - i,
        {
            let idx = &self.indexes[i];
            let mut same = idx.columns.len() == conditions.0.len();
            proof {
                let target = Seq::new(conds.len(), |v: int| conds[v].0);
                if idx.columns@.len() != conditions.0@.len() {
                    assert(idx@.columns.len() != target.len());
                }
            }
            let mut j: usize = 0;
            while same && j < idx.columns.len()
                invariant
                    i < self.indexes@.len(),
                    j <= idx.columns@.len(),
                    same ==> idx.columns@.len() == conditions.0@.len(),
                    same ==> forall|u: int| 0 <= u < j ==> #[trigger] idx.columns@[u]@
                        == conditions.0@[u]@.0,
                    !same ==> idx@.columns != Seq::new(
                        conditions@.len(),
                        |v: int| conditions@[v].0,
                    ),
                    idx == self.indexes@[i as int],
                    conds == conditions@,
                decreases idx.columns@.len() - j + (if same {
                    1int
                } else {
                    0int
                }),
            {
                let cname = match &conditions.0[j] {
                    crate::sql::Condition::Eq { col, .. } => col,
                };
                if !bytes_eq(idx.columns[j].as_slice(), cname.as_slice()) {
                    proof {
                        let target = Seq::new(conds.len(), |v: int| conds[v].0);
                        assert(idx@.columns[j as int] != target[j as int]);
                    }
                    same = false;
                } else {
                    j = j + 1;
                }
            }
            if same {
                proof {
                    assert(idx@.columns =~= Seq::new(conds.len(), |v: int| conds[v].0));
                    assert(spec_first_index(t.indexes, conds, i as int) == Some(i as int));
                }
                if conditions.0.len() > 0 {
                    let key = match &conditions.0[0] {
                        crate::sql::Condition::Eq { value, .. } => crate::cell::copy_bytes(value),
                    };
                    return Some((i, key));
                }
                return None;
            }
            proof {
                assert(t.indexes[i as int].columns != Seq::new(conds.len(), |v: int| conds[v].0));
            }
            i = i + 1;
        }
        None
    }

    /// The rows the conditions select: an index probe when an index's
    /// columns are exactly the conditions' columns, a filtered full
    /// scan otherwise.
    ///
    /// On the scan path, every returned row satisfies the conditions,
    /// and on a well-formed root the result is exactly the satisfying
    /// rows of the table, in ascending rowid order.  On the index path,
    /// each rowid the probe yields is looked up in the table B-tree, and
    /// every returned row is a row of the table whose rowid the index
    /// pairs with the probed key.
    #[verifier::rlimit(100)]
    pub fn search_rows(&self, db: &crate::db::Db, conditions: &crate::sql::Conditions) -> (r:
        Result<Vec<TableRow>, Error>)
        ensures
            spec_use_index(self@, conditions@) is None ==> (r matches Ok(rows) ==> (forall|j: int|
                0 <= j < rows@.len() ==> #[trigger] crate::sql::spec_satisfies(
                    self@,
                    rows@[j]@.0,
                    rows@[j]@.1,
                    conditions@,
                ))),
            spec_use_index(self@, conditions@) is None && crate::btree::wf_table_root(
                db@,
                self@.rootpage,
            ) ==> (r matches Ok(rows) && spec_row_views(rows@) == spec_filter_rows(
                crate::btree::spec_rows_of_root(db@, self@.rootpage),
                self@,
                conditions@,
                0,
            )),
            match spec_use_index(self@, conditions@) {
                Some((ii, km)) => crate::btree::wf_table_root(db@, self@.rootpage) ==> (r matches
                    Ok(rows) ==> ({
                    let all = crate::btree::spec_rows_of_root(db@, self@.rootpage);
                    let chain = crate::index::spec_probe_chain(
                        db@,
                        self@.indexes[ii].rootpage,
                        km,
                        0,
                    );
                    &&& spec_row_views(rows@) == spec_chain_rows(all, chain, 0)
                    &&& crate::btree::spec_rows_sorted(spec_row_views(rows@))
                    &&& (forall|j: int|
                        #![trigger rows@[j]]
                        0 <= j < rows@.len() ==> crate::index::spec_entries_contain(
                            crate::index::spec_index_entries(
                                db@,
                                self@.indexes[ii].rootpage,
                                crate::btree::spec_btree_fuel(db@),
                            ),
                            km,
                            rows@[j]@.0,
                        ) && all.contains(rows@[j]@))
                })),
                None => true,
            },
    {
        let ghost t = self@;
        let ghost conds = conditions@;
        match self.use_index(conditions) {
            Some((i, key)) => {
                self.probe_index(db, i, &key)
            },
            None => {
                let cells = match crate::btree::scan_table(db, self.rootpage) {
                    Ok(cs) => cs,
                    Err(e) => {
                        return Err(e);
                    },
                };
                let ghost all = crate::btree::spec_rows_of_root(db@, t.rootpage);
                let ghost cellrows = crate::btree::spec_cells_rows(cells@);
                let mut out: Vec<TableRow> = Vec::new();
                let mut k: usize = 0;
                while k < cells.len()
                    invariant
                        k <= cells@.len(),
                        t == self@,
                        conds == conditions@,
                        cellrows == crate::btree::spec_cells_rows(cells@),
                        forall|j: int|
                            0 <= j < cells@.len() ==> #[trigger] cells@[j]@ is LeafTable,
                        forall|j: int|
                            0 <= j < out@.len() ==> #[trigger] crate::sql::spec_satisfies(
                                t,
                                out@[j]@.0,
                                out@[j]@.1,
                                conds,
                            ),
                        spec_row_views(out@) + spec_filter_rows(cellrows, t, conds, k as int)
                            == spec_filter_rows(cellrows, t, conds, 0),
                    decreases cells@.len() - k,
                {
                    let cell = cells[k].duplicate();
                    assert(cellrows[k as int] == crate::btree::spec_row_of(cells@[k as int]@));
                    let row = match TableRow::new(cell) {
                        Ok(row) => row,
                        Err(_) => {
                            // unreachable: a scan yields table leaves only
                            assert(false);
                            return Err(Error::CorruptBtree);
                        },
                    };
                    assert(row@ == cellrows[k as int]);
                    if conditions.satisfy(self, &row) {
                        proof {
                            assert(spec_filter_rows(cellrows, t, conds, k as int) == seq![
                                cellrows[k as int],
                            ] + spec_filter_rows(cellrows, t, conds, k + 1));
                            assert(spec_row_views(out@.push(row)) =~= spec_row_views(out@).push(
                                row@,
                            ));
                            assert(spec_row_views(out@).push(row@) + spec_filter_rows(
                                cellrows,
                                t,
                                conds,
                                k + 1,
                            ) =~= spec_row_views(out@) + (seq![cellrows[k as int]]
                                + spec_filter_rows(cellrows, t, conds, k + 1)));
                        }
                        out.push(row);
                    } else {
                        proof {
                            assert(spec_filter_rows(cellrows, t, conds, k as int)
                                =~= Seq::<crate::btree::RowModel>::empty() + spec_filter_rows(
                                cellrows,
                                t,
                                conds,
                                k + 1,
                            ));
                            assert(Seq::<crate::btree::RowModel>::empty() + spec_filter_rows(
                                cellrows,
                                t,
                                conds,
                                k + 1,
                            ) =~= spec_filter_rows(cellrows, t, conds, k + 1));
                        }
                    }
                    k = k + 1;
                }
                proof {
                    assert(spec_filter_rows(cellrows, t, conds, cells@.len() as int)
                        =~= Seq::<crate::btree::RowModel>::empty());
                    assert(spec_row_views(out@) + Seq::<crate::btree::RowModel>::empty()
                        =~= spec_row_views(out@));
                    if crate::btree::wf_table_root(db@, t.rootpage) {
                        assert(cellrows == all);
                    }
                }
                Ok(out)
            },
        }
    }
}

/// The table the database file describes under `name`: the schema rows
/// of page 1, the last `table` row with that name, and the table built
/// from its `CREATE` texts.
pub open spec fn spec_table_lookup(file: Seq<u8>, name: Seq<u8>) -> Result<TableModel, Error> {
    match crate::page::spec_cells(crate::db::spec_page_bytes(file, 1), 100) {
        Err(e) => Err(e),
        Ok(cells) => {
            let ss = crate::schema_table::spec_schemas_from(cells, 0);
            match spec_table_schema_of(ss, name) {
                None => Err(Error::UnknownTable),
                Some(ts) => spec_table_of(name, ts, spec_index_schemas_of(ss, name)),
            }
        },
    }
}

impl crate::db::Db {
    /// Assembles the named table from the schema, exactly as
    /// `spec_table_lookup` reads it on success.
    pub fn table(&self, name: &[u8]) -> (r: Result<Table, Error>)
        ensures
            r matches Ok(t) ==> spec_table_lookup(self@, name@) matches Ok(m) && t@ == m,
            r matches Err(e) ==> !crate::db::spec_page_in_file(self@, 1) || spec_table_lookup(
                self@,
                name@,
            ) == Err::<TableModel, Error>(e),
    {
        let schemas = match self.schemas() {
            Ok(ss) => ss,
            Err(e) => {
                return Err(e);
            },
        };
        let builder = Table::builder(name).schemas(schemas);
        builder.build()
    }
}

/// A full-scan iterator: the table's root page and the rowid the next
/// descent seeks.  Each step re-descends from the root — stateless
/// between pages — and moves the target one past the rowid it yielded.
#[derive(Debug)]
pub struct TableRows {
    pub rootpage: PageNum,
    pub target: crate::cell::RowId,
    pub done: bool,
}

/// The whole relation of one scan step: from state `pre`, the step
/// answers the first row at or past the target — exactly as
/// `spec_descend` finds it — and `post` seeks one past its rowid, so
/// that what one call yields is strictly above everything yielded
/// before; a finished or empty-handed scan stays finished.
pub open spec fn spec_scan_step(
    file: Seq<u8>,
    pre: TableRows,
    post: TableRows,
    r: Result<Option<TableRow>, Error>,
) -> bool {
    &&& post.rootpage == pre.rootpage
    &&& if pre.done {
        r matches Ok(o) && o is None && post == pre
    } else {
        match crate::btree::spec_descend(
            file,
            pre.rootpage as int,
            pre.target as int,
            crate::btree::spec_btree_fuel(file),
        ) {
            Ok(Some(c)) => r matches Ok(o) && o matches Some(row) && row@
                == crate::btree::spec_row_of(c) && row@.0 >= pre.target && (
            if crate::btree::spec_rowid_of(c) == u64::MAX as int {
                post.done && post.target == pre.target
            } else {
                !post.done && post.target as int == crate::btree::spec_rowid_of(c) + 1
            }),
            Ok(None) => r matches Ok(o) && o is None && post.done && post.target == pre.target,
            Err(e) => r == Err::<Option<TableRow>, Error>(e) && post == pre,
        }
    }
}

impl TableRows {
    /// Starts a scan of the table rooted at `rootpage`.
    pub fn new(rootpage: PageNum) -> (r: TableRows)
        ensures
            r.rootpage == rootpage,
            r.target == 0,
            !r.done,
    {
        TableRows { rootpage, target: 0, done: false }
    }

    /// One scan step, exactly as `spec_scan_step` relates the states:
    /// the first row at or past the target is yielded and the target
    /// moves one past its rowid.
    pub fn next(&mut self, db: &crate::db::Db) -> (r: Result<Option<TableRow>, Error>)
        ensures
            spec_scan_step(db@, *old(self), *final(self), r),
    {
        if self.done {
            return Ok(None);
        }
        let step = match crate::btree::descend_table(db, self.rootpage, self.target) {
            Ok(s) => s,
            Err(e) => {
                return Err(e);
            },
        };
        match step {
            Some(cell) => {
                let row = match TableRow::new(cell) {
                    Ok(row) => row,
                    Err(e) => {
                        return Err(e);
                    },
                };
                if row.rowid == crate::cell::RowId::MAX {
                    self.done = true;
                } else {
                    self.target = row.rowid + 1;
                }
                Ok(Some(row))
            },
            None => {
                self.done = true;
                Ok(None)
            },
        }
    }
}

/// An index-probe iterator: the index's root page, the probe key, and
/// the last rowid yielded.  Each step re-descends from the index root
/// and yields only strictly larger rowids.
#[derive(Debug)]
pub struct IndexRows {
    pub rootpage: PageNum,
    pub key: Vec<u8>,
    pub last: crate::cell::RowId,
    pub done: bool,
}

/// The whole relation of one probe step: from state `pre`, the step
/// answers the next rowid paired with the key — exactly as
/// `spec_index_descend` finds it past `pre.last` — and `post` remembers
/// it; a descent that answers empty or fails to advance finishes the
/// probe for good.
pub open spec fn spec_probe_step(
    file: Seq<u8>,
    pre: IndexRows,
    post: IndexRows,
    r: Result<Option<crate::cell::RowId>, Error>,
) -> bool {
    &&& post.rootpage == pre.rootpage
    &&& post.key@ == pre.key@
    &&& if pre.done {
        r matches Ok(o) && o is None && post.done && post.last == pre.last
    } else {
        match crate::index::spec_index_descend(
            file,
            pre.rootpage as int,
            pre.last as int,
            pre.key@,
            None,
            crate::btree::spec_btree_fuel(file),
        ) {
            Ok(Some(rid)) => if rid > pre.last as int {
                r matches Ok(o) && o matches Some(rv) && rv as int == rid && !post.done
                    && post.last as int == rid
            } else {
                r matches Ok(o) && o is None && post.done && post.last == pre.last
            },
            Ok(None) => r matches Ok(o) && o is None && post.done && post.last == pre.last,
            Err(e) => r == Err::<Option<crate::cell::RowId>, Error>(e) && post.done == pre.done
                && post.last == pre.last,
        }
    }
}

impl IndexRows {
    /// Starts a probe of the index rooted at `rootpage` for `key`.
    pub fn new(rootpage: PageNum, key: Vec<u8>) -> (r: IndexRows)
        ensures
            r.rootpage == rootpage,
            r.key@ == key@,
            r.last == 0,
            !r.done,
    {
        IndexRows { rootpage, key, last: 0, done: false }
    }

    /// One probe step, exactly as `spec_probe_step` relates the states:
    /// the next equal-key rowid past the last one is yielded and
    /// remembered.
    pub fn next(&mut self, db: &crate::db::Db) -> (r: Result<Option<crate::cell::RowId>, Error>)
        ensures
            spec_probe_step(db@, *old(self), *final(self), r),
    {
        if self.done {
            return Ok(None);
        }
        let step = match crate::index::descend_index(db, self.rootpage, self.last, self.key.as_slice()) {
            Ok(s) => s,
            Err(e) => {
                return Err(e);
            },
        };
        match step {
            Some(rid) => {
                if rid <= self.last {
                    self.done = true;
                    return Ok(None);
                }
                self.last = rid;
                Ok(Some(rid))
            },
            None => {
                self.done = true;
                Ok(None)
            },
        }
    }
}

/// A planned row source: a filtered full scan or an index probe.
#[derive(Debug)]
pub enum TableSearch {
    Scan(TableRows),
    Index(IndexRows),
}

impl TableSearch {
    /// The next row of the search: a scan step, or a probe step
    /// followed by a point lookup of the rowid it yielded.  On a scan
    /// the whole `spec_scan_step` relation holds; on a probe the whole
    /// `spec_probe_step` relation holds for some step answer, and when
    /// it yields a rowid the result is that rowid's point lookup.
    pub fn next(&mut self, db: &crate::db::Db, table: &Table) -> (r: Result<
        Option<TableRow>,
        Error,
    >)
        ensures
            match *old(self) {
                TableSearch::Scan(s0) => *final(self) matches TableSearch::Scan(s1)
                    && spec_scan_step(db@, s0, s1, r),
                TableSearch::Index(p0) => *final(self) matches TableSearch::Index(p1) && exists|
                    pr: Result<Option<crate::cell::RowId>, Error>,
                |
                    #[trigger] spec_probe_step(db@, p0, p1, pr) && match pr {
                        Ok(Some(rid)) => spec_lookup_post(db@, table@.rootpage, rid as int, r),
                        Ok(None) => r matches Ok(o) && o is None,
                        Err(e) => r == Err::<Option<TableRow>, Error>(e),
                    },
            },
    {
        match self {
            TableSearch::Scan(scan) => scan.next(db),
            TableSearch::Index(probe) => {
                let step = probe.next(db);
                let ghost pr = step;
                proof {
                    assert(spec_probe_step(db@, (*old(self))->Index_0, (*self)->Index_0, pr));
                }
                let rid = match step {
                    Ok(Some(rid)) => rid,
                    Ok(None) => {
                        return Ok(None);
                    },
                    Err(e) => {
                        return Err(e);
                    },
                };
                table.get_row(db, rid)
            },
        }
    }
}

fn duplicate_schema(s: &Schema) -> (r: Schema)
    ensures
        r@ == s@,
{
    Schema {
        kind: crate::cell::copy_bytes(&s.kind),
        name: crate::cell::copy_bytes(&s.name),
        tbl_name: crate::cell::copy_bytes(&s.tbl_name),
        rootpage: s.rootpage,
        sql: crate::cell::copy_bytes(&s.sql),
    }
}

} // verus!