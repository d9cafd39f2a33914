//! The query layer: the parsed `SELECT` form, its equality conditions,
//! planning, and execution.

use vstd::prelude::*;
use crate::cell::{spec_matches_text, RecordValue, ValueModel};
use crate::error::Error;
use crate::parsers::{parse_select, spec_parse_select, spec_views2};
use crate::strconv::{spec_lower, to_lower};
use crate::table::{spec_row_col, Table, TableModel, TableRow};
use crate::text::bytes_eq;

verus! {

/// One equality predicate of a `WHERE` clause.
#[derive(Debug)]
pub enum Condition {
    Eq { col: Vec<u8>, value: Vec<u8> },
}

impl View for Condition {
    type V = (Seq<u8>, Seq<u8>);

    open spec fn view(&self) -> (Seq<u8>, Seq<u8>) {
        match self {
            Condition::Eq { col, value } => (col@, value@),
        }
    }
}

impl Condition {
    /// Wraps one `column = literal` pair.
    pub fn new(col: Vec<u8>, value: Vec<u8>) -> (r: Condition)
        ensures
            r@ == (col@, value@),
    {
        Condition::Eq { col, value }
    }
}

/// The conjunction of a `WHERE` clause's equality predicates.
#[derive(Debug)]
pub struct Conditions(pub Vec<Condition>);

impl View for Conditions {
    type V = Seq<(Seq<u8>, Seq<u8>)>;

    open spec fn view(&self) -> Seq<(Seq<u8>, Seq<u8>)> {
        Seq::new(self.0@.len(), |i: int| self.0@[i]@)
    }
}

/// One condition holds of a row: the named column's value is text equal
/// to the literal.  A missing column, or any non-text value — an
/// integer key among them — satisfies nothing.
pub open spec fn spec_cond_ok(
    t: TableModel,
    rowid: int,
    vals: Seq<ValueModel>,
    c: (Seq<u8>, Seq<u8>),
) -> bool {
    match spec_row_col(t, rowid, vals, c.0) {
        Ok(v) => spec_matches_text(v, c.1),
        Err(_) => false,
    }
}

/// Every condition holds of the row.
pub open spec fn spec_satisfies(
    t: TableModel,
    rowid: int,
    vals: Seq<ValueModel>,
    conds: Seq<(Seq<u8>, Seq<u8>)>,
) -> bool {
    forall|i: int| 0 <= i < conds.len() ==> #[trigger] spec_cond_ok(t, rowid, vals, conds[i])
}

impl Conditions {
    /// True exactly when every condition holds of the row, as
    /// `spec_satisfies` reads it.
    pub fn satisfy(&self, table: &Table, row: &TableRow) -> (r: bool)
        ensures
            r == spec_satisfies(table@, row@.0, row@.1, self@),
    {
        let mut i: usize = 0;
        while i < self.0.len()
            invariant
                i <= self.0@.len(),
                forall|j: int| 0 <= j < i ==> #[trigger] spec_cond_ok(table@, row@.0, row@.1, self@[j]),
            decreases self.0@.len() - i,
        {
            let ok = match &self.0[i] {
                Condition::Eq { col, value } => {
                    match row.col(table, col.as_slice()) {
                        Ok(v) => v.matches_text(value.as_slice()),
                        Err(_) => false,
                    }
                },
            };
            if !ok {
                assert(!spec_cond_ok(table@, row@.0, row@.1, self@[i as int]));
                return false;
            }
            assert(spec_cond_ok(table@, row@.0, row@.1, self@[i as int]));
            i = i + 1;
        }
        true
    }
}

/// The token `count(*)`, as bytes.
pub open spec fn spec_count_text() -> Seq<u8> {
    seq![99u8, 111u8, 117u8, 110u8, 116u8, 40u8, 42u8, 41u8]
}

/// A query asks for a row count when any projected column token,
/// lowercased, is `count(*)`.
pub open spec fn spec_count_requested(cols: Seq<Seq<u8>>) -> bool {
    exists|i: int| 0 <= i < cols.len() && spec_lower(#[trigger] cols[i]) == spec_count_text()
}

fn count_requested(cols: &Vec<Vec<u8>>) -> (r: bool)
    ensures
        r == spec_count_requested(spec_views2(cols@)),
{
    let text: [u8; 8] = [99, 111, 117, 110, 116, 40, 42, 41];
    proof {
        assert(text@ =~= spec_count_text());
    }
    let ghost views = spec_views2(cols@);
    let mut i: usize = 0;
    while i < cols.len()
        invariant
            i <= cols@.len(),
            views == spec_views2(cols@),
            text@ == spec_count_text(),
            forall|j: int| 0 <= j < i ==> spec_lower(#[trigger] views[j]) != spec_count_text(),
        decreases cols@.len() - i,
    {
        let low = to_lower(cols[i].as_slice());
        if bytes_eq(low.as_slice(), text.as_slice()) {
            assert(spec_lower(views[i as int]) == spec_count_text());
            return true;
        }
        i = i + 1;
    }
    false
}

/// A parsed command: so far, only a `SELECT`.
#[derive(Debug)]
pub enum Sql {
    Select { columns: Vec<Vec<u8>>, table: Vec<u8>, conditions: Conditions },
}

impl Sql {
    /// Parses a `SELECT` command, exactly as `spec_parse_select` reads
    /// it.
    pub fn new(s: &[u8]) -> (r: Result<Sql, Error>)
        ensures
            match r {
                Ok(q) => q matches Sql::Select { columns, table, conditions }
                    && spec_parse_select(s@) matches Ok((_, (cs, t, conds))) && spec_views2(
                    columns@,
                ) == cs && table@ == t && conditions@ == conds,
                Err(e) => spec_parse_select(s@) == Err::<
                    (int, (Seq<Seq<u8>>, Seq<u8>, Seq<(Seq<u8>, Seq<u8>)>)),
                    Error,
                >(e),
            },
    {
        let (_, (columns, table, conds)) = match parse_select(s) {
            Ok(r) => r,
            Err(e) => {
                return Err(e);
            },
        };
        let mut cs: Vec<Condition> = Vec::new();
        let mut i: usize = 0;
        let ghost condm = (spec_parse_select(s@)->Ok_0.1).2;
        while i < conds.len()
            invariant
                i <= conds@.len() == condm.len(),
                cs@.len() == i,
                forall|j: int|
                    0 <= j < conds@.len() ==> #[trigger] condm[j] == (conds@[j].0@, conds@[j].1@),
                forall|j: int| 0 <= j < i ==> #[trigger] cs@[j]@ == condm[j],
            decreases conds@.len() - i,
        {
            let c = crate::cell::copy_bytes(&conds[i].0);
            let v = crate::cell::copy_bytes(&conds[i].1);
            cs.push(Condition::Eq { col: c, value: v });
            i = i + 1;
        }
        let conditions = Conditions(cs);
        proof {
            assert(conditions@ =~= condm);
        }
        Ok(Sql::Select { columns, table, conditions })
    }
}

/// What a query evaluates to: a bare row count, or the projected rows.
#[derive(Debug, PartialEq)]
pub enum QueryOutput {
    Count(u64),
    Rows(Vec<Vec<RecordValue>>),
}

/// The values a row presents for the projected column names, in order;
/// an unknown name is absent from the output, not rendered as null.
pub open spec fn spec_project(
    t: TableModel,
    rowid: int,
    vals: Seq<ValueModel>,
    cols: Seq<Seq<u8>>,
    i: int,
) -> Seq<ValueModel>
    decreases cols.len() - i,
{
    if i < 0 || i >= cols.len() {
        Seq::empty()
    } else {
        (match spec_row_col(t, rowid, vals, cols[i]) {
            Ok(v) => seq![v],
            Err(_) => Seq::empty(),
        }) + spec_project(t, rowid, vals, cols, i + 1)
    }
}

fn project_row(t: &Table, row: &TableRow, cols: &Vec<Vec<u8>>) -> (r: Vec<RecordValue>)
    ensures
        crate::cell::views_of(r@) == spec_project(
            t@,
            row@.0,
            row@.1,
            spec_views2(cols@),
            0,
        ),
{
    let ghost colviews = spec_views2(cols@);
    let mut out: Vec<RecordValue> = Vec::new();
    let mut i: usize = 0;
    while i < cols.len()
        invariant
            i <= cols@.len(),
            colviews == spec_views2(cols@),
            crate::cell::views_of(out@) + spec_project(t@, row@.0, row@.1, colviews, i as int)
                == spec_project(t@, row@.0, row@.1, colviews, 0),
        decreases cols@.len() - i,
    {
        match row.col(t, cols[i].as_slice()) {
            Ok(v) => {
                proof {
                    assert(spec_project(t@, row@.0, row@.1, colviews, i as int) == seq![v@]
                        + spec_project(t@, row@.0, row@.1, colviews, i + 1));
                    assert(crate::cell::views_of(out@.push(v)) =~= crate::cell::views_of(
                        out@,
                    ).push(v@));
                    assert(crate::cell::views_of(out@).push(v@) + spec_project(
                        t@,
                        row@.0,
                        row@.1,
                        colviews,
                        i + 1,
                    ) =~= crate::cell::views_of(out@) + (seq![v@] + spec_project(
                        t@,
                        row@.0,
                        row@.1,
                        colviews,
                        i + 1,
                    )));
                }
                out.push(v);
            },
            Err(_) => {
                proof {
                    assert(spec_project(t@, row@.0, row@.1, colviews, i as int)
                        =~= Seq::<ValueModel>::empty() + spec_project(
                        t@,
                        row@.0,
                        row@.1,
                        colviews,
                        i + 1,
                    ));
                    assert(Seq::<ValueModel>::empty() + spec_project(
                        t@,
                        row@.0,
                        row@.1,
                        colviews,
                        i + 1,
                    ) =~= spec_project(t@, row@.0, row@.1, colviews, i + 1));
                }
            },
        }
        i = i + 1;
    }
    proof {
        assert(spec_project(t@, row@.0, row@.1, colviews, cols@.len() as int)
            =~= Seq::<ValueModel>::empty());
        assert(crate::cell::views_of(out@) + Seq::<ValueModel>::empty() =~= crate::cell::views_of(
            out@,
        ));
    }
    out
}

impl Sql {
    /// Evaluates the query against the database: resolve the table,
    /// select its rows — by index probe or filtered scan — then either
    /// count them or project the requested columns of each.
    ///
    /// On a well-formed table, the scan path owes success, `COUNT(*)`
    /// is exactly the number of rows that satisfy the conditions, and
    /// the output rows are exactly the projections of those rows in
    /// ascending rowid order; on the index path the output is built the
    /// same way from the probe chain's rows.  A failure is always the
    /// schema page's absence, the table resolution's own error, an
    /// index-path probe, or an ill-formed tree.
    pub fn execute(self, db: &crate::db::Db) -> (r: Result<QueryOutput, Error>)
        ensures
            r matches Ok(out) ==> (self matches Sql::Select { columns, table, conditions } && (
            crate::table::spec_table_lookup(db@, table@) matches Ok(tm) && (
            crate::table::spec_use_index(tm, conditions@) is None
                && crate::btree::wf_table_root(db@, tm.rootpage) ==> {
                let rows = crate::table::spec_filter_rows(
                    crate::btree::spec_rows_of_root(db@, tm.rootpage),
                    tm,
                    conditions@,
                    0,
                );
                if spec_count_requested(spec_views2(columns@)) {
                    out matches QueryOutput::Count(n) && n == rows.len()
                } else {
                    out matches QueryOutput::Rows(vs) && vs.len() == rows.len() && (forall|
                        j: int,
                    |
                        0 <= j < rows.len() ==> #[trigger] crate::cell::views_of(vs[j]@)
                            == spec_project(
                            tm,
                            rows[j].0,
                            rows[j].1,
                            spec_views2(columns@),
                            0,
                        ))
                }
            }))),
            r matches Ok(out) ==> (self matches Sql::Select { columns, table, conditions } && (
            crate::table::spec_table_lookup(db@, table@) matches Ok(tm) && (
            match crate::table::spec_use_index(tm, conditions@) {
                Some((ii, km)) => crate::btree::wf_table_root(db@, tm.rootpage) ==> {
                    let rows = crate::table::spec_chain_rows(
                        crate::btree::spec_rows_of_root(db@, tm.rootpage),
                        crate::index::spec_probe_chain(db@, tm.indexes[ii].rootpage, km, 0),
                        0,
                    );
                    if spec_count_requested(spec_views2(columns@)) {
                        out matches QueryOutput::Count(n) && n == rows.len()
                    } else {
                        out matches QueryOutput::Rows(vs) && vs.len() == rows.len() && (forall|
                            j: int,
                        |
                            0 <= j < rows.len() ==> #[trigger] crate::cell::views_of(vs[j]@)
                                == spec_project(
                                tm,
                                rows[j].0,
                                rows[j].1,
                                spec_views2(columns@),
                                0,
                            ))
                    }
                },
                None => true,
            }))),
            match self {
                Sql::Select { table, conditions, .. } => ({
                    let looked = crate::table::spec_table_lookup(db@, table@);
                    crate::db::spec_page_in_file(db@, 1) && looked is Ok
                        && crate::btree::wf_table_root(db@, looked->Ok_0.rootpage)
                        && crate::table::spec_use_index(looked->Ok_0, conditions@) is None
                }) ==> r is Ok,
            },
            r matches Err(e) ==> (self matches Sql::Select { table, conditions, .. } && (
            !crate::db::spec_page_in_file(db@, 1) || crate::table::spec_table_lookup(db@, table@)
                == Err::<crate::table::TableModel, Error>(e) || (crate::table::spec_table_lookup(
                db@,
                table@,
            ) matches Ok(tm) && (crate::table::spec_use_index(tm, conditions@) is Some
                || !crate::btree::wf_table_root(db@, tm.rootpage))))),
    {
        let (columns, table, conditions) = match self {
            Sql::Select { columns, table, conditions } => (columns, table, conditions),
        };
        let tbl = match db.table(table.as_slice()) {
            Ok(t) => t,
            Err(e) => {
                return Err(e);
            },
        };
        let rows = match tbl.search_rows(db, &conditions) {
            Ok(rs) => rs,
            Err(e) => {
                return Err(e);
            },
        };
        if count_requested(&columns) {
            return Ok(QueryOutput::Count(rows.len() as u64));
        }
        let mut out: Vec<Vec<RecordValue>> = Vec::new();
        let mut i: usize = 0;
        while i < rows.len()
            invariant
                i <= rows@.len(),
                out@.len() == i,
                forall|j: int|
                    0 <= j < i ==> #[trigger] crate::cell::views_of(out@[j]@) == spec_project(
                        tbl@,
                        rows@[j]@.0,
                        rows@[j]@.1,
                        spec_views2(columns@),
                        0,
                    ),
            decreases rows@.len() - i,
        {
            let projected = project_row(&tbl, &rows[i], &columns);
            out.push(projected);
            i = i + 1;
        }
        Ok(QueryOutput::Rows(out))
    }
}

/// The output text of one value: text as it stands, integers and keys
/// in decimal, an absent value as `NULL`, a blob as a bracketed list of
/// its bytes.  A float has no text here; a caller renders it at the
/// edge from its raw bits.
pub open spec fn spec_render_value(v: ValueModel) -> Option<Seq<u8>> {
    match v {
        ValueModel::PrimaryKey(n) => Some(crate::strconv::spec_u64_dec(n)),
        ValueModel::Null => Some(seq![78u8, 85u8, 76u8, 76u8]),
        ValueModel::Int(n) => Some(crate::strconv::spec_i64_dec(n)),
        ValueModel::Float(_) => None,
        ValueModel::Blob(b) => Some(seq![91u8] + spec_blob_items(b, 0) + seq![93u8]),
        ValueModel::Text(t) => Some(t),
    }
}

/// A blob's bytes in decimal, joined by `, `.
pub open spec fn spec_blob_items(b: Seq<u8>, i: int) -> Seq<u8>
    decreases b.len() - i,
{
    if i < 0 || i >= b.len() {
        Seq::empty()
    } else if i == b.len() - 1 {
        crate::strconv::spec_u64_dec(b[i] as int)
    } else {
        crate::strconv::spec_u64_dec(b[i] as int) + seq![44u8, 32u8] + spec_blob_items(b, i + 1)
    }
}

/// Appends `s` to `out`.
fn push_bytes(out: &mut Vec<u8>, s: &[u8])
    ensures
        final(out)@ == old(out)@ + s@,
{
    let mut i: usize = 0;
    while i < s.len()
        invariant
            i <= s@.len(),
            out@ == old(out)@ + s@.take(i as int),
        decreases s@.len() - i,
    {
        out.push(s[i]);
        assert(out@ =~= old(out)@ + s@.take(i + 1));
        i = i + 1;
    }
    assert(out@ =~= old(out)@ + s@);
}

/// Renders one value's output text, exactly as `spec_render_value`
/// does; a float has none.
pub fn render_value(v: &RecordValue) -> (r: Option<Vec<u8>>)
    ensures
        match r {
            Some(b) => spec_render_value(v@) == Some(b@),
            None => spec_render_value(v@) is None,
        },
{
    match v {
        RecordValue::PrimaryKey(n) => Some(crate::strconv::format_u64(*n)),
        RecordValue::Null => {
            let out: Vec<u8> = vec![78u8, 85u8, 76u8, 76u8];
            proof {
                assert(out@ =~= seq![78u8, 85u8, 76u8, 76u8]);
            }
            Some(out)
        },
        RecordValue::Int(n) => Some(crate::strconv::format_i64(*n)),
        RecordValue::Float(_) => None,
        RecordValue::Blob(b) => {
            let mut out: Vec<u8> = Vec::new();
            out.push(91);
            assert(out@ =~= seq![91u8]);
            let mut i: usize = 0;
            while i < b.len()
                invariant
                    i <= b@.len(),
                    out@ == seq![91u8] + spec_blob_items(b@, 0) || (i < b@.len() && out@ == seq![
                        91u8,
                    ] + spec_blob_prefix(b@, i as int)),
                    i == 0 ==> out@ == seq![91u8],
                    i > 0 && i < b@.len() ==> out@ == seq![91u8] + spec_blob_prefix(b@, i as int),
                    i > 0 && i >= b@.len() ==> out@ == seq![91u8] + spec_blob_items(b@, 0),
                decreases b@.len() - i,
            {
                let d = crate::strconv::format_u64(b[i] as u64);
                push_bytes(&mut out, d.as_slice());
                if i + 1 < b.len() {
                    out.push(44);
                    out.push(32);
                }
                proof {
                    lemma_blob_prefix(b@, i as int);
                    if i + 1 < b@.len() {
                        assert(out@ =~= seq![91u8] + spec_blob_prefix(b@, i + 1));
                    } else {
                        assert(out@ =~= seq![91u8] + spec_blob_prefix(b@, i as int)
                            + crate::strconv::spec_u64_dec(b@[i as int] as int));
                        assert(out@ =~= seq![91u8] + spec_blob_items(b@, 0));
                    }
                }
                i = i + 1;
            }
            out.push(93);
            proof {
                if b@.len() == 0 {
                    assert(spec_blob_items(b@, 0) =~= Seq::<u8>::empty());
                }
                assert(out@ =~= seq![91u8] + spec_blob_items(b@, 0) + seq![93u8]);
            }
            Some(out)
        },
        RecordValue::Text(t) => Some(crate::cell::copy_bytes(t)),
    }
}

/// The rendered bytes of elements `0..i` of a blob, each followed by a
/// separator: what the renderer has built once `i` elements are done
/// and more remain.
pub open spec fn spec_blob_prefix(b: Seq<u8>, i: int) -> Seq<u8>
    decreases i,
{
    if i <= 0 {
        Seq::empty()
    } else {
        spec_blob_prefix(b, i - 1) + crate::strconv::spec_u64_dec(b[i - 1] as int) + seq![
            44u8,
            32u8,
        ]
    }
}

proof fn lemma_blob_prefix(b: Seq<u8>, i: int)
    requires
        0 <= i < b.len(),
    ensures
        spec_blob_prefix(b, i) + spec_blob_items(b, i) =~= spec_blob_items(b, 0),
    decreases i,
{
    if i > 0 {
        lemma_blob_prefix(b, i - 1);
        assert(spec_blob_items(b, i - 1) =~= crate::strconv::spec_u64_dec(b[i - 1] as int) + seq![
            44u8,
            32u8,
        ] + spec_blob_items(b, i));
    }
}

/// A whole output line: the values' texts joined by `|`; none when any
/// value is a float.
pub open spec fn spec_render_row(vals: Seq<ValueModel>) -> Option<Seq<u8>> {
    if vals.len() == 0 {
        Some(Seq::empty())
    } else {
        match spec_render_value(vals[0]) {
            None => None,
            Some(b) => match spec_render_rest(vals, 1) {
                None => None,
                Some(r) => Some(b + r),
            },
        }
    }
}

/// The tail of an output line: each value prefixed by `|`.
pub open spec fn spec_render_rest(vals: Seq<ValueModel>, i: int) -> Option<Seq<u8>>
    decreases vals.len() - i,
{
    if i < 0 || i >= vals.len() {
        Some(Seq::empty())
    } else {
        match spec_render_value(vals[i]) {
            None => None,
            Some(b) => match spec_render_rest(vals, i + 1) {
                None => None,
                Some(r) => Some(seq![124u8] + b + r),
            },
        }
    }
}

/// Renders one output row, exactly as `spec_render_row` does: the
/// values joined by `|`, or nothing when a float is among them.
pub fn render_row(vals: &Vec<RecordValue>) -> (r: Option<Vec<u8>>)
    ensures
        match r {
            Some(b) => spec_render_row(crate::cell::views_of(vals@)) == Some(b@),
            None => spec_render_row(crate::cell::views_of(vals@)) is None,
        },
{
    let ghost vm = crate::cell::views_of(vals@);
    if vals.len() == 0 {
        let out: Vec<u8> = Vec::new();
        assert(out@ =~= Seq::<u8>::empty());
        return Some(out);
    }
    let mut out: Vec<u8> = match render_value(&vals[0]) {
        Some(b) => b,
        None => {
            return None;
        },
    };
    let mut i: usize = 1;
    while i < vals.len()
        invariant
            1 <= i <= vals@.len(),
            vm == crate::cell::views_of(vals@),
            vals@.len() > 0,
            match spec_render_rest(vm, i as int) {
                Some(rest) => spec_render_row(vm) matches Some(whole) && whole == out@ + rest,
                None => spec_render_row(vm) is None,
            },
        decreases vals@.len() - i,
    {
        let b = match render_value(&vals[i]) {
            Some(b) => b,
            None => {
                return None;
            },
        };
        out.push(124);
        push_bytes(&mut out, b.as_slice());
        proof {
            match spec_render_rest(vm, i + 1) {
                Some(rest2) => {
                    assert(spec_render_rest(vm, i as int) matches Some(rr) && rr =~= seq![124u8]
                        + b@ + rest2);
                },
                None => {},
            }
        }
        i = i + 1;
    }
    proof {
        assert(spec_render_rest(vm, vals@.len() as int) == Some(Seq::<u8>::empty()));
        assert(spec_render_row(vm) matches Some(whole) && whole =~= out@);
    }
    Some(out)
}

} // verus!