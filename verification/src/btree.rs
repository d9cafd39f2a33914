//! One step of B-tree descent: where a table or index search goes next
//! from a given page.
//!
//! A table search descends by rowid; an index search descends by key,
//! remembering the rowid of an equal-or-greater interior cell as a
//! fallback (an equal key can live in an interior cell, which a plain
//! descent would skip).

use vstd::prelude::*;
use crate::cell::{Cell, CellModel, RowId, ValueModel};
use crate::db::Db;
use crate::error::Error;
use crate::page::{spec_cells, spec_page_header, Page, PageNum, PageType};

verus! {

/// Where a table-B-tree descent goes from one page: down a child pointer,
/// or done at a leaf with the found cell, if any.
#[derive(Debug)]
pub enum BtreeSearch {
    Pointer(PageNum),
    Leaf(Option<Cell>),
}

/// Where an index-B-tree descent goes from one page: down a child pointer
/// together with the interior-match fallback rowid seen on the way, or
/// done at a leaf with the found rowid, if any.
#[derive(Debug)]
pub enum BtreeIndexSearch {
    PointerOrRowId(PageNum, Option<RowId>),
    RowId(Option<RowId>),
}

/// The rowid of a table cell; interior and leaf table cells always have
/// one.
pub open spec fn spec_rowid_of(c: CellModel) -> int {
    match c {
        CellModel::InteriorTable { rowid, .. } => rowid,
        CellModel::LeafTable { rowid, .. } => rowid,
        _ => 0,
    }
}

/// The left-child pointer of an interior cell.
pub open spec fn spec_left_of(c: CellModel) -> int {
    match c {
        CellModel::InteriorIndex { left, .. } => left,
        CellModel::InteriorTable { left, .. } => left,
        _ => 0,
    }
}

/// The first index at or after `i` whose cell's rowid is at least
/// `target`, if any.
pub open spec fn spec_first_ge(cells: Seq<CellModel>, target: int, i: int) -> Option<int>
    decreases cells.len() - i,
{
    if i < 0 || i >= cells.len() {
        None
    } else if spec_rowid_of(cells[i]) >= target {
        Some(i)
    } else {
        spec_first_ge(cells, target, i + 1)
    }
}

/// One step of a table-B-tree search for `target` on the page whose bytes
/// are `s` with header at `hoff`: on an interior table page, the left
/// child of the first cell with rowid at least `target`, or the right-most
/// child when there is none; on a table leaf, the first cell with rowid at
/// least `target`, or nothing.  Index pages are a wrong turn.
pub open spec fn spec_btree_scan(s: Seq<u8>, hoff: int, target: int) -> Result<
    BtreeScanModel,
    Error,
> {
    match spec_page_header(s, hoff) {
        Err(e) => Err(e),
        Ok(h) => {
            if h.kind is InteriorTable {
                match spec_cells(s, hoff) {
                    Err(e) => Err(e),
                    Ok(cells) => match spec_first_ge(cells, target, 0) {
                        Some(i) => Ok(BtreeScanModel::Pointer(spec_left_of(cells[i]))),
                        None => match h.right_most_pointer {
                            Some(p) => Ok(BtreeScanModel::Pointer(p as int)),
                            None => Err(Error::CorruptBtree),
                        },
                    },
                }
            } else if h.kind is LeafTable {
                match spec_cells(s, hoff) {
                    Err(e) => Err(e),
                    Ok(cells) => match spec_first_ge(cells, target, 0) {
                        Some(i) => Ok(BtreeScanModel::Leaf(Some(cells[i]))),
                        None => Ok(BtreeScanModel::Leaf(None)),
                    },
                }
            } else {
                Err(Error::UnexpectedPageType)
            }
        },
    }
}

/// The mathematical reading of a table-search step.
pub enum BtreeScanModel {
    Pointer(int),
    Leaf(Option<CellModel>),
}

impl View for BtreeSearch {
    type V = BtreeScanModel;

    open spec fn view(&self) -> BtreeScanModel {
        match self {
            BtreeSearch::Pointer(p) => BtreeScanModel::Pointer(*p as int),
            BtreeSearch::Leaf(Some(c)) => BtreeScanModel::Leaf(Some(c@)),
            BtreeSearch::Leaf(None) => BtreeScanModel::Leaf(None),
        }
    }
}

impl Page {
    /// One step of the table-B-tree search for `target` on this page,
    /// exactly as `spec_btree_scan` reads it.
    pub fn btree_scan(&self, target: RowId) -> (r: Result<BtreeSearch, Error>)
        ensures
            match r {
                Ok(step) => spec_btree_scan(self.buf@, self.header_offset as int, target as int)
                    matches Ok(m) && step@ == m,
                Err(e) => spec_btree_scan(self.buf@, self.header_offset as int, target as int)
                    == Err::<BtreeScanModel, Error>(e),
            },
    {
        let ghost s = self.buf@;
        let ghost hoff = self.header_offset as int;
        let h = match self.header() {
            Ok(h) => h,
            Err(e) => {
                return Err(e);
            },
        };
        let interior = match h.kind {
            PageType::InteriorTable => true,
            PageType::LeafTable => false,
            _ => {
                return Err(Error::UnexpectedPageType);
            },
        };
        let mut cells = match self.cells() {
            Ok(cs) => cs,
            Err(e) => {
                return Err(e);
            },
        };
        let ghost ms = spec_cells(s, hoff)->Ok_0;
        proof {
            crate::page::lemma_cells_match(s, hoff, h.kind, h.num_of_cells as int, 0);
        }
        let n = cells.len();
        let mut i: usize = 0;
        while i < n
            invariant
                s == self.buf@,
                hoff == self.header_offset as int,
                i <= n == cells@.len() == ms.len(),
                forall|j: int| 0 <= j < n ==> #[trigger] cells@[j]@ == ms[j],
                forall|j: int|
                    0 <= j < n ==> #[trigger] crate::page::spec_cell_matches(h.kind, ms[j]),
                spec_first_ge(ms, target as int, 0) == spec_first_ge(ms, target as int, i as int),
                h.kind is InteriorTable || h.kind is LeafTable,
                spec_page_header(s, hoff) == Ok::<crate::page::PageHeader, Error>(h),
                spec_cells(s, hoff) == Ok::<Seq<CellModel>, Error>(ms),
                interior == (h.kind is InteriorTable),
            decreases n - i,
        {
            let found = match cells[i].rowid() {
                Some(rid) => rid >= target,
                None => false,
            };
            proof {
                assert(cells@[i as int]@ == ms[i as int]);
                assert(crate::page::spec_cell_matches(h.kind, ms[i as int]));
                if h.kind is InteriorTable {
                    assert(ms[i as int] is InteriorTable);
                } else {
                    assert(ms[i as int] is LeafTable);
                }
            }
            if found {
                assert(spec_first_ge(ms, target as int, i as int) == Some(i as int));
                if interior {
                    let c = cells.remove(i);
                    match c.left() {
                        Some(p) => {
                            return Ok(BtreeSearch::Pointer(p));
                        },
                        None => {
                            // unreachable: interior cells carry a pointer
                            return Err(Error::CorruptBtree);
                        },
                    }
                } else {
                    let c = cells.remove(i);
                    return Ok(BtreeSearch::Leaf(Some(c)));
                }
            }
            i = i + 1;
        }
        assert(spec_first_ge(ms, target as int, 0) is None);
        if interior {
            match h.right_most_pointer {
                Some(p) => Ok(BtreeSearch::Pointer(p)),
                None => Err(Error::CorruptBtree),
            }
        } else {
            Ok(BtreeSearch::Leaf(None))
        }
    }
}

/// One row of a table: its rowid and its record's column values.
pub type RowModel = (int, Seq<ValueModel>);

/// The row a table-leaf cell holds.
pub open spec fn spec_row_of(c: CellModel) -> RowModel {
    match c {
        CellModel::LeafTable { rowid, payload } => (rowid, payload),
        _ => (0, Seq::empty()),
    }
}

/// The error `Db::page` reports for a page it cannot serve.
pub open spec fn spec_page_err(file: Seq<u8>, num: int) -> Error {
    if num == 0 {
        Error::PageNumberZero
    } else if file.len() < crate::db::FILE_HEADER_SIZE {
        Error::UnexpectedEof
    } else {
        Error::PageOutOfRange
    }
}

/// Every row in the table subtree rooted at page `num`, in B-tree order:
/// for an interior page, the rows under each cell's left child in cell
/// order, then the rows under the right-most child.  `fuel` bounds the
/// depth; the sequence is empty where the tree is malformed.
pub open spec fn spec_table_rows(file: Seq<u8>, num: int, fuel: nat) -> Seq<RowModel>
    decreases fuel, 0nat, 0nat,
{
    if fuel == 0 {
        Seq::empty()
    } else {
        let s = crate::db::spec_page_bytes(file, num);
        let hoff = crate::db::spec_header_offset(num);
        match spec_page_header(s, hoff) {
            Err(_) => Seq::empty(),
            Ok(h) => match spec_cells(s, hoff) {
                Err(_) => Seq::empty(),
                Ok(cells) => {
                    if h.kind is LeafTable {
                        Seq::new(cells.len(), |i: int| spec_row_of(cells[i]))
                    } else if h.kind is InteriorTable {
                        spec_children_rows(file, cells, 0, (fuel - 1) as nat) + (
                        match h.right_most_pointer {
                            Some(p) => spec_table_rows(file, p as int, (fuel - 1) as nat),
                            None => Seq::empty(),
                        })
                    } else {
                        Seq::empty()
                    }
                },
            },
        }
    }
}

/// The rows under the left children of `cells[i..]`, in order.
pub open spec fn spec_children_rows(file: Seq<u8>, cells: Seq<CellModel>, i: int, fuel: nat) -> Seq<
    RowModel,
>
    decreases fuel, 1nat, (if i < cells.len() { (cells.len() - i) as nat } else { 0nat }),
{
    if i < 0 || i >= cells.len() {
        Seq::empty()
    } else {
        spec_table_rows(file, spec_left_of(cells[i]), fuel) + spec_children_rows(
            file,
            cells,
            i + 1,
            fuel,
        )
    }
}

/// True when `rows` holds a row with rowid `r`.
pub open spec fn spec_rows_contain(rows: Seq<RowModel>, r: int) -> bool {
    exists|k: int| 0 <= k < rows.len() && rows[k].0 == r
}

/// A well-formed table B-tree rooted at page `num`, all of whose rowids
/// lie in the interval `(lo, hi]`:
/// the page decodes as a table page; rowids are strictly increasing in
/// cell order; under an interior page, the subtree of each cell's left
/// child is well formed over the interval ending at that cell's rowid —
/// which the subtree attains — and the right-most child's subtree over
/// what remains.
pub open spec fn wf_table(file: Seq<u8>, num: int, lo: int, hi: int, fuel: nat) -> bool
    decreases fuel, 0nat, 0nat,
{
    &&& fuel > 0
    &&& crate::db::spec_page_in_file(file, num)
    &&& {
        let s = crate::db::spec_page_bytes(file, num);
        let hoff = crate::db::spec_header_offset(num);
        match spec_page_header(s, hoff) {
            Err(_) => false,
            Ok(h) => match spec_cells(s, hoff) {
                Err(_) => false,
                Ok(cells) => {
                    &&& (forall|i: int, j: int|
                        0 <= i < j < cells.len() ==> #[trigger] spec_rowid_of(cells[i])
                            < #[trigger] spec_rowid_of(cells[j]))
                    &&& (forall|i: int|
                        0 <= i < cells.len() ==> lo < #[trigger] spec_rowid_of(cells[i]) <= hi)
                    &&& if h.kind is LeafTable {
                        true
                    } else if h.kind is InteriorTable {
                        &&& h.right_most_pointer is Some
                        &&& wf_children(file, cells, lo, 0, (fuel - 1) as nat)
                        &&& wf_table(
                            file,
                            h.right_most_pointer->0 as int,
                            if cells.len() > 0 {
                                spec_rowid_of(cells[cells.len() - 1])
                            } else {
                                lo
                            },
                            hi,
                            (fuel - 1) as nat,
                        )
                    } else {
                        false
                    }
                },
            },
        }
    }
}

/// Well-formedness of the subtrees under `cells[i..]` of an interior
/// table page over `(lo, hi]`: each left child's subtree covers the gap
/// from the previous cell's rowid up to its own cell's rowid, and holds a
/// row with that rowid.
pub open spec fn wf_children(file: Seq<u8>, cells: Seq<CellModel>, lo: int, i: int, fuel: nat) -> bool
    decreases fuel, 1nat, (if i < cells.len() { (cells.len() - i) as nat } else { 0nat }),
{
    if i < 0 || i >= cells.len() {
        true
    } else {
        let prev = if i == 0 {
            lo
        } else {
            spec_rowid_of(cells[i - 1])
        };
        &&& wf_table(file, spec_left_of(cells[i]), prev, spec_rowid_of(cells[i]), fuel)
        &&& spec_rows_contain(
            spec_table_rows(file, spec_left_of(cells[i]), fuel),
            spec_rowid_of(cells[i]),
        )
        &&& wf_children(file, cells, lo, i + 1, fuel)
    }
}

/// The full descent for the first row with rowid at least `target`, from
/// page `num`: repeated `spec_btree_scan` steps down child pointers until
/// a leaf answers.  `fuel` bounds the number of pages visited; a descent
/// that runs out is reported as a corrupt tree.
pub open spec fn spec_descend(file: Seq<u8>, num: int, target: int, fuel: nat) -> Result<
    Option<CellModel>,
    Error,
>
    decreases fuel,
{
    if fuel == 0 {
        Err(Error::CorruptBtree)
    } else if !crate::db::spec_page_in_file(file, num) {
        Err(spec_page_err(file, num))
    } else {
        let s = crate::db::spec_page_bytes(file, num);
        let hoff = crate::db::spec_header_offset(num);
        match spec_btree_scan(s, hoff, target) {
            Err(e) => Err(e),
            Ok(BtreeScanModel::Pointer(p)) => spec_descend(file, p, target, (fuel - 1) as nat),
            Ok(BtreeScanModel::Leaf(opt)) => Ok(opt),
        }
    }
}

/// Descends the table B-tree rooted at `root` for the first row with
/// rowid at least `target`, exactly as `spec_descend` reads it with one
/// unit of fuel per page of the file, plus one.  A found cell is always
/// a table-leaf cell whose rowid reaches the target.
pub fn descend_table(db: &Db, root: PageNum, target: RowId) -> (r: Result<Option<Cell>, Error>)
    ensures
        ({
            let m = spec_descend(db@, root as int, target as int, (db@.len() + 1) as nat);
            match r {
                Ok(Some(c)) => m matches Ok(mo) && mo matches Some(cm) && c@ == cm && c@
                    is LeafTable && spec_rowid_of(c@) >= target,
                Ok(None) => m == Ok::<Option<CellModel>, Error>(None),
                Err(e) => m == Err::<Option<CellModel>, Error>(e),
            }
        }),
{
    proof {
        let m = spec_descend(db@, root as int, target as int, (db@.len() + 1) as nat);
        if m matches Ok(mo) && mo is Some {
            lemma_descend_ge(db@, root as int, target as int, (db@.len() + 1) as nat);
        }
    }
    let mut num: PageNum = root;
    let mut fuel: u128 = db.data.len() as u128 + 1;
    loop
        invariant
            spec_descend(db@, root as int, target as int, (db@.len() + 1) as nat) == spec_descend(
                db@,
                num as int,
                target as int,
                fuel as nat,
            ),
            ({
                let m = spec_descend(db@, root as int, target as int, (db@.len() + 1) as nat);
                m is Ok && m->Ok_0 is Some ==> m->Ok_0->0 is LeafTable && spec_rowid_of(
                    m->Ok_0->0,
                ) >= target
            }),
        decreases fuel,
    {
        if fuel == 0 {
            return Err(Error::CorruptBtree);
        }
        let page = match db.page(num) {
            Ok(p) => p,
            Err(e) => {
                return Err(e);
            },
        };
        match page.btree_scan(target) {
            Ok(BtreeSearch::Pointer(p)) => {
                num = p;
                fuel = fuel - 1;
            },
            Ok(BtreeSearch::Leaf(opt)) => {
                return Ok(opt);
            },
            Err(e) => {
                return Err(e);
            },
        }
    }
}

/// All rowids of `rows` lie in `(lo, hi]`.
pub open spec fn spec_rows_in(rows: Seq<RowModel>, lo: int, hi: int) -> bool {
    forall|k: int| 0 <= k < rows.len() ==> lo < #[trigger] rows[k].0 <= hi
}

/// Rowids strictly increase along `rows`.
pub open spec fn spec_rows_sorted(rows: Seq<RowModel>) -> bool {
    forall|i: int, j: int| 0 <= i < j < rows.len() ==> #[trigger] rows[i].0 < #[trigger] rows[j].0
}

/// `res` is the first row of `rows` whose rowid is at least `target`: a
/// table-leaf cell holding that row, or nothing when no row reaches
/// `target`.
pub open spec fn is_first_ge(rows: Seq<RowModel>, target: int, res: Option<CellModel>) -> bool {
    match res {
        Some(c) => c is LeafTable && exists|k: int|
            0 <= k < rows.len() && #[trigger] rows[k] == spec_row_of(c) && rows[k].0 >= target && (
            forall|j: int| 0 <= j < k ==> #[trigger] rows[j].0 < target),
        None => forall|k: int| 0 <= k < rows.len() ==> #[trigger] rows[k].0 < target,
    }
}

proof fn lemma_first_ge_extend_right(a: Seq<RowModel>, b: Seq<RowModel>, target: int, res: Option<
    CellModel,
>)
    requires
        res is Some,
        is_first_ge(a, target, res),
    ensures
        is_first_ge(a + b, target, res),
{
    let c = res->0;
    let k = choose|k: int|
        0 <= k < a.len() && #[trigger] a[k] == spec_row_of(c) && a[k].0 >= target && (forall|j: int|
            0 <= j < k ==> #[trigger] a[j].0 < target);
    assert((a + b)[k] == a[k]);
    assert(forall|j: int| 0 <= j < k ==> #[trigger] (a + b)[j].0 < target);
}

proof fn lemma_first_ge_extend_left(a: Seq<RowModel>, b: Seq<RowModel>, target: int, res: Option<
    CellModel,
>)
    requires
        forall|k: int| 0 <= k < a.len() ==> #[trigger] a[k].0 < target,
        is_first_ge(b, target, res),
    ensures
        is_first_ge(a + b, target, res),
{
    match res {
        Some(c) => {
            let k = choose|k: int|
                0 <= k < b.len() && #[trigger] b[k] == spec_row_of(c) && b[k].0 >= target && (
                forall|j: int| 0 <= j < k ==> #[trigger] b[j].0 < target);
            assert((a + b)[a.len() + k] == b[k]);
            assert(forall|j: int|
                0 <= j < a.len() + k ==> #[trigger] (a + b)[j].0 < target) by {
                assert(forall|j: int| 0 <= j < a.len() ==> (a + b)[j] == a[j]);
                assert(forall|j: int|
                    a.len() <= j < a.len() + k ==> (a + b)[j] == b[j - a.len()]);
            }
        },
        None => {
            assert(forall|k: int|
                0 <= k < (a + b).len() ==> #[trigger] (a + b)[k].0 < target) by {
                assert(forall|j: int| 0 <= j < a.len() ==> (a + b)[j] == a[j]);
                assert(forall|j: int|
                    a.len() <= j < (a + b).len() ==> (a + b)[j] == b[j - a.len()]);
            }
        },
    }
}

/// `spec_first_ge` finds an index whose cell reaches `target`, with every
/// earlier cell short of it.
proof fn lemma_first_ge_props(cells: Seq<CellModel>, target: int, i: int)
    requires
        0 <= i <= cells.len(),
    ensures
        match spec_first_ge(cells, target, i) {
            Some(k) => i <= k < cells.len() && spec_rowid_of(cells[k]) >= target && (forall|j: int|
                i <= j < k ==> #[trigger] spec_rowid_of(cells[j]) < target),
            None => forall|j: int|
                i <= j < cells.len() ==> #[trigger] spec_rowid_of(cells[j]) < target,
        },
    decreases cells.len() - i,
{
    if i < cells.len() && spec_rowid_of(cells[i]) < target {
        lemma_first_ge_props(cells, target, i + 1);
    }
}

/// Walking the children predicate forward: it holds from every index it
/// covers.
proof fn lemma_wf_children_at(file: Seq<u8>, cells: Seq<CellModel>, lo: int, j: int, fuel: nat)
    requires
        wf_children(file, cells, lo, 0, fuel),
        0 <= j,
    ensures
        wf_children(file, cells, lo, j, fuel),
    decreases j,
{
    if j > 0 {
        lemma_wf_children_at_step(file, cells, lo, j - 1, fuel);
    }
}

proof fn lemma_wf_children_at_step(file: Seq<u8>, cells: Seq<CellModel>, lo: int, j: int, fuel: nat)
    requires
        wf_children(file, cells, lo, 0, fuel),
        0 <= j,
    ensures
        wf_children(file, cells, lo, j, fuel),
        wf_children(file, cells, lo, j + 1, fuel),
    decreases j,
{
    if j == 0 {
    } else {
        lemma_wf_children_at_step(file, cells, lo, j - 1, fuel);
    }
}

/// A well-formed subtree's rowids all lie in its interval.
pub proof fn lemma_rows_in(file: Seq<u8>, num: int, lo: int, hi: int, fuel: nat)
    requires
        wf_table(file, num, lo, hi, fuel),
    ensures
        spec_rows_in(spec_table_rows(file, num, fuel), lo, hi),
    decreases fuel, 0nat, 0nat,
{
    let s = crate::db::spec_page_bytes(file, num);
    let hoff = crate::db::spec_header_offset(num);
    let h = spec_page_header(s, hoff)->Ok_0;
    let cells = spec_cells(s, hoff)->Ok_0;
    crate::page::lemma_cells_match(s, hoff, h.kind, h.num_of_cells as int, 0);
    if h.kind is LeafTable {
        let rows = spec_table_rows(file, num, fuel);
        assert forall|k: int| 0 <= k < rows.len() implies #[trigger] rows[k].0 == spec_rowid_of(
            cells[k],
        ) by {
            assert(crate::page::spec_cell_matches(h.kind, cells[k]));
            assert(rows[k] == spec_row_of(cells[k]));
        }
    } else {
        let f2 = (fuel - 1) as nat;
        lemma_children_rows_in(file, cells, lo, hi, 0, f2);
        let last = if cells.len() > 0 {
            spec_rowid_of(cells[cells.len() - 1])
        } else {
            lo
        };
        lemma_rows_in(file, h.right_most_pointer->0 as int, last, hi, f2);
        let a = spec_children_rows(file, cells, 0, f2);
        let b = spec_table_rows(file, h.right_most_pointer->0 as int, f2);
        assert(spec_table_rows(file, num, fuel) == a + b);
        assert(forall|k: int| 0 <= k < a.len() ==> (a + b)[k] == a[k]);
        assert(forall|k: int| a.len() <= k < a.len() + b.len() ==> (a + b)[k] == b[k - a.len()]);
    }
}

/// Rowids under `cells[j..]` of a well-formed interior page lie between
/// the previous cell's rowid (or `lo`) and `hi`.
proof fn lemma_children_rows_in(
    file: Seq<u8>,
    cells: Seq<CellModel>,
    lo: int,
    hi: int,
    j: int,
    fuel: nat,
)
    requires
        0 <= j,
        wf_children(file, cells, lo, j, fuel),
        forall|i: int| 0 <= i < cells.len() ==> lo < #[trigger] spec_rowid_of(cells[i]) <= hi,
        forall|i: int, k: int|
            0 <= i < k < cells.len() ==> #[trigger] spec_rowid_of(cells[i])
                < #[trigger] spec_rowid_of(cells[k]),
    ensures
        spec_rows_in(
            spec_children_rows(file, cells, j, fuel),
            if j == 0 || j > cells.len() {
                lo
            } else {
                spec_rowid_of(cells[j - 1])
            },
            hi,
        ),
    decreases fuel, 1nat, (if j < cells.len() { (cells.len() - j) as nat } else { 0nat }),
{
    if j >= cells.len() {
    } else {
        let prev = if j == 0 {
            lo
        } else {
            spec_rowid_of(cells[j - 1])
        };
        lemma_rows_in(file, spec_left_of(cells[j]), prev, spec_rowid_of(cells[j]), fuel);
        lemma_children_rows_in(file, cells, lo, hi, j + 1, fuel);
        let a = spec_table_rows(file, spec_left_of(cells[j]), fuel);
        let b = spec_children_rows(file, cells, j + 1, fuel);
        assert(spec_children_rows(file, cells, j, fuel) == a + b);
        assert(forall|k: int| 0 <= k < a.len() ==> (a + b)[k] == a[k]);
        assert(forall|k: int| a.len() <= k < a.len() + b.len() ==> (a + b)[k] == b[k - a.len()]);
    }
}

proof fn lemma_sorted_concat(a: Seq<RowModel>, b: Seq<RowModel>, m: int)
    requires
        spec_rows_sorted(a),
        spec_rows_sorted(b),
        forall|k: int| 0 <= k < a.len() ==> #[trigger] a[k].0 <= m,
        forall|k: int| 0 <= k < b.len() ==> m < #[trigger] b[k].0,
    ensures
        spec_rows_sorted(a + b),
{
    assert forall|i: int, j: int| 0 <= i < j < (a + b).len() implies #[trigger] (a + b)[i].0
        < #[trigger] (a + b)[j].0 by {
        if j < a.len() {
            assert((a + b)[i] == a[i] && (a + b)[j] == a[j]);
        } else if i >= a.len() {
            assert((a + b)[i] == b[i - a.len()] && (a + b)[j] == b[j - a.len()]);
        } else {
            assert((a + b)[i] == a[i] && (a + b)[j] == b[j - a.len()]);
        }
    }
}

/// A well-formed subtree's rows come out in strictly increasing rowid
/// order.
pub proof fn lemma_rows_sorted(file: Seq<u8>, num: int, lo: int, hi: int, fuel: nat)
    requires
        wf_table(file, num, lo, hi, fuel),
    ensures
        spec_rows_sorted(spec_table_rows(file, num, fuel)),
    decreases fuel, 0nat, 0nat,
{
    let s = crate::db::spec_page_bytes(file, num);
    let hoff = crate::db::spec_header_offset(num);
    let h = spec_page_header(s, hoff)->Ok_0;
    let cells = spec_cells(s, hoff)->Ok_0;
    crate::page::lemma_cells_match(s, hoff, h.kind, h.num_of_cells as int, 0);
    if h.kind is LeafTable {
        let rows = spec_table_rows(file, num, fuel);
        assert forall|i: int, j: int| 0 <= i < j < rows.len() implies #[trigger] rows[i].0
            < #[trigger] rows[j].0 by {
            assert(crate::page::spec_cell_matches(h.kind, cells[i]));
            assert(crate::page::spec_cell_matches(h.kind, cells[j]));
            assert(rows[i] == spec_row_of(cells[i]));
            assert(rows[j] == spec_row_of(cells[j]));
            assert(spec_rowid_of(cells[i]) < spec_rowid_of(cells[j]));
        }
    } else {
        let f2 = (fuel - 1) as nat;
        let last = if cells.len() > 0 {
            spec_rowid_of(cells[cells.len() - 1])
        } else {
            lo
        };
        lemma_children_rows_sorted(file, cells, lo, hi, 0, f2);
        lemma_children_rows_in(file, cells, lo, hi, 0, f2);
        lemma_rows_sorted(file, h.right_most_pointer->0 as int, last, hi, f2);
        lemma_rows_in(file, h.right_most_pointer->0 as int, last, hi, f2);
        let a = spec_children_rows(file, cells, 0, f2);
        let b = spec_table_rows(file, h.right_most_pointer->0 as int, f2);
        // every child row sits at or below the last cell's rowid
        assert forall|k: int| 0 <= k < a.len() implies #[trigger] a[k].0 <= last by {
            lemma_children_rows_below_last(file, cells, lo, hi, 0, f2);
        }
        lemma_sorted_concat(a, b, last);
    }
}

/// Rowids under `cells[j..]` of a well-formed interior page never exceed
/// the last cell's rowid.
proof fn lemma_children_rows_below_last(
    file: Seq<u8>,
    cells: Seq<CellModel>,
    lo: int,
    hi: int,
    j: int,
    fuel: nat,
)
    requires
        0 <= j,
        cells.len() > 0,
        wf_children(file, cells, lo, j, fuel),
        forall|i: int| 0 <= i < cells.len() ==> lo < #[trigger] spec_rowid_of(cells[i]) <= hi,
        forall|i: int, k: int|
            0 <= i < k < cells.len() ==> #[trigger] spec_rowid_of(cells[i])
                < #[trigger] spec_rowid_of(cells[k]),
    ensures
        forall|k: int|
            0 <= k < spec_children_rows(file, cells, j, fuel).len()
                ==> #[trigger] spec_children_rows(file, cells, j, fuel)[k].0 <= spec_rowid_of(
                cells[cells.len() - 1],
            ),
    decreases fuel, 1nat, (if j < cells.len() { (cells.len() - j) as nat } else { 0nat }),
{
    if j >= cells.len() {
    } else {
        let prev = if j == 0 {
            lo
        } else {
            spec_rowid_of(cells[j - 1])
        };
        lemma_rows_in(file, spec_left_of(cells[j]), prev, spec_rowid_of(cells[j]), fuel);
        lemma_children_rows_below_last(file, cells, lo, hi, j + 1, fuel);
        let a = spec_table_rows(file, spec_left_of(cells[j]), fuel);
        let b = spec_children_rows(file, cells, j + 1, fuel);
        assert(spec_children_rows(file, cells, j, fuel) == a + b);
        assert(forall|k: int| 0 <= k < a.len() ==> (a + b)[k] == a[k]);
        assert(forall|k: int| a.len() <= k < a.len() + b.len() ==> (a + b)[k] == b[k - a.len()]);
        assert(spec_rowid_of(cells[j]) <= spec_rowid_of(cells[cells.len() - 1]));
    }
}

/// The rows under `cells[j..]` of a well-formed interior page, sorted.
proof fn lemma_children_rows_sorted(
    file: Seq<u8>,
    cells: Seq<CellModel>,
    lo: int,
    hi: int,
    j: int,
    fuel: nat,
)
    requires
        0 <= j,
        wf_children(file, cells, lo, j, fuel),
        forall|i: int| 0 <= i < cells.len() ==> lo < #[trigger] spec_rowid_of(cells[i]) <= hi,
        forall|i: int, k: int|
            0 <= i < k < cells.len() ==> #[trigger] spec_rowid_of(cells[i])
                < #[trigger] spec_rowid_of(cells[k]),
    ensures
        spec_rows_sorted(spec_children_rows(file, cells, j, fuel)),
    decreases fuel, 1nat, (if j < cells.len() { (cells.len() - j) as nat } else { 0nat }),
{
    if j >= cells.len() {
    } else {
        let prev = if j == 0 {
            lo
        } else {
            spec_rowid_of(cells[j - 1])
        };
        lemma_rows_sorted(file, spec_left_of(cells[j]), prev, spec_rowid_of(cells[j]), fuel);
        lemma_rows_in(file, spec_left_of(cells[j]), prev, spec_rowid_of(cells[j]), fuel);
        lemma_children_rows_sorted(file, cells, lo, hi, j + 1, fuel);
        lemma_children_rows_in(file, cells, lo, hi, j + 1, fuel);
        let a = spec_table_rows(file, spec_left_of(cells[j]), fuel);
        let b = spec_children_rows(file, cells, j + 1, fuel);
        lemma_sorted_concat(a, b, spec_rowid_of(cells[j]));
        assert(spec_children_rows(file, cells, j, fuel) == a + b);
    }
}

/// Every rowid under `cells[j..]` falls short of `target` when every cell
/// rowid from `j` on does.
proof fn lemma_children_all_below(
    file: Seq<u8>,
    cells: Seq<CellModel>,
    lo: int,
    hi: int,
    j: int,
    fuel: nat,
    target: int,
)
    requires
        0 <= j,
        wf_children(file, cells, lo, j, fuel),
        forall|i: int| 0 <= i < cells.len() ==> lo < #[trigger] spec_rowid_of(cells[i]) <= hi,
        forall|i: int, k: int|
            0 <= i < k < cells.len() ==> #[trigger] spec_rowid_of(cells[i])
                < #[trigger] spec_rowid_of(cells[k]),
        forall|t: int| j <= t < cells.len() ==> #[trigger] spec_rowid_of(cells[t]) < target,
    ensures
        forall|k: int|
            0 <= k < spec_children_rows(file, cells, j, fuel).len()
                ==> #[trigger] spec_children_rows(file, cells, j, fuel)[k].0 < target,
    decreases fuel, 1nat, (if j < cells.len() { (cells.len() - j) as nat } else { 0nat }),
{
    if j >= cells.len() {
    } else {
        let prev = if j == 0 {
            lo
        } else {
            spec_rowid_of(cells[j - 1])
        };
        lemma_rows_in(file, spec_left_of(cells[j]), prev, spec_rowid_of(cells[j]), fuel);
        lemma_children_all_below(file, cells, lo, hi, j + 1, fuel, target);
        let a = spec_table_rows(file, spec_left_of(cells[j]), fuel);
        let b = spec_children_rows(file, cells, j + 1, fuel);
        assert(spec_children_rows(file, cells, j, fuel) == a + b);
        assert(forall|k: int| 0 <= k < a.len() ==> (a + b)[k] == a[k]);
        assert(forall|k: int| a.len() <= k < a.len() + b.len() ==> (a + b)[k] == b[k - a.len()]);
    }
}

/// Folds the answer found under `cells[i]`'s child out to the whole run of
/// children from `j`, all earlier cells falling short of `target`.
proof fn lemma_first_ge_from(
    file: Seq<u8>,
    cells: Seq<CellModel>,
    lo: int,
    hi: int,
    j: int,
    i: int,
    fuel: nat,
    target: int,
    tail: Seq<RowModel>,
    res: Option<CellModel>,
)
    requires
        0 <= j <= i < cells.len(),
        wf_children(file, cells, lo, j, fuel),
        forall|t: int| 0 <= t < cells.len() ==> lo < #[trigger] spec_rowid_of(cells[t]) <= hi,
        forall|t: int, k: int|
            0 <= t < k < cells.len() ==> #[trigger] spec_rowid_of(cells[t])
                < #[trigger] spec_rowid_of(cells[k]),
        forall|t: int| j <= t < i ==> #[trigger] spec_rowid_of(cells[t]) < target,
        is_first_ge(
            spec_table_rows(file, spec_left_of(cells[i]), fuel) + (spec_children_rows(
                file,
                cells,
                i + 1,
                fuel,
            ) + tail),
            target,
            res,
        ),
    ensures
        is_first_ge(spec_children_rows(file, cells, j, fuel) + tail, target, res),
    decreases i - j,
{
    if j == i {
        let a = spec_table_rows(file, spec_left_of(cells[i]), fuel);
        let b = spec_children_rows(file, cells, i + 1, fuel);
        assert(spec_children_rows(file, cells, i, fuel) == a + b);
        assert((a + b) + tail =~= a + (b + tail));
    } else {
        let prev = if j == 0 {
            lo
        } else {
            spec_rowid_of(cells[j - 1])
        };
        lemma_rows_in(file, spec_left_of(cells[j]), prev, spec_rowid_of(cells[j]), fuel);
        lemma_first_ge_from(file, cells, lo, hi, j + 1, i, fuel, target, tail, res);
        let a = spec_table_rows(file, spec_left_of(cells[j]), fuel);
        let b = spec_children_rows(file, cells, j + 1, fuel);
        lemma_first_ge_extend_left(a, b + tail, target, res);
        assert(spec_children_rows(file, cells, j, fuel) == a + b);
        assert((a + b) + tail =~= a + (b + tail));
    }
}

/// Descending a well-formed table B-tree finds exactly the first row
/// whose rowid reaches `target`, or reports that none does.
#[verifier::rlimit(80)]
pub proof fn lemma_descend_finds(
    file: Seq<u8>,
    num: int,
    target: int,
    lo: int,
    hi: int,
    fuel: nat,
    dfuel: nat,
)
    requires
        wf_table(file, num, lo, hi, fuel),
        dfuel >= fuel,
    ensures
        spec_descend(file, num, target, dfuel) matches Ok(opt) && is_first_ge(
            spec_table_rows(file, num, fuel),
            target,
            opt,
        ),
    decreases fuel,
{
    let s = crate::db::spec_page_bytes(file, num);
    let hoff = crate::db::spec_header_offset(num);
    let h = spec_page_header(s, hoff)->Ok_0;
    let cells = spec_cells(s, hoff)->Ok_0;
    crate::page::lemma_cells_match(s, hoff, h.kind, h.num_of_cells as int, 0);
    lemma_first_ge_props(cells, target, 0);
    if h.kind is LeafTable {
        let rows = spec_table_rows(file, num, fuel);
        assert(rows.len() == cells.len());
        assert forall|k: int| 0 <= k < rows.len() implies #[trigger] rows[k] == spec_row_of(
            cells[k],
        ) by {}
        match spec_first_ge(cells, target, 0) {
            Some(k) => {
                assert(crate::page::spec_cell_matches(h.kind, cells[k]));
                assert(rows[k] == spec_row_of(cells[k]));
                assert(rows[k].0 == spec_rowid_of(cells[k]));
                assert forall|j: int| 0 <= j < k implies #[trigger] rows[j].0 < target by {
                    assert(crate::page::spec_cell_matches(h.kind, cells[j]));
                    assert(spec_rowid_of(cells[j]) < target);
                }
            },
            None => {
                assert forall|k: int| 0 <= k < rows.len() implies #[trigger] rows[k].0
                    < target by {
                    assert(crate::page::spec_cell_matches(h.kind, cells[k]));
                    assert(spec_rowid_of(cells[k]) < target);
                }
            },
        }
    } else {
        let f2 = (fuel - 1) as nat;
        let rmp = h.right_most_pointer->0 as int;
        let last = if cells.len() > 0 {
            spec_rowid_of(cells[cells.len() - 1])
        } else {
            lo
        };
        let a = spec_children_rows(file, cells, 0, f2);
        let b = spec_table_rows(file, rmp, f2);
        assert(spec_table_rows(file, num, fuel) == a + b);
        match spec_first_ge(cells, target, 0) {
            Some(i) => {
                lemma_wf_children_at(file, cells, lo, i, f2);
                let prev = if i == 0 {
                    lo
                } else {
                    spec_rowid_of(cells[i - 1])
                };
                let child = spec_left_of(cells[i]);
                let crows = spec_table_rows(file, child, f2);
                lemma_descend_finds(file, child, target, prev, spec_rowid_of(cells[i]), f2, (
                dfuel - 1) as nat);
                let opt = spec_descend(file, child, target, (dfuel - 1) as nat)->Ok_0;
                // the child subtree attains its cell's rowid, so the
                // answer cannot be empty
                assert(opt is Some) by {
                    assert(spec_rows_contain(crows, spec_rowid_of(cells[i])));
                    let w = choose|w: int|
                        0 <= w < crows.len() && crows[w].0 == spec_rowid_of(cells[i]);
                    if opt is None {
                        assert(crows[w].0 < target);
                    }
                }
                lemma_first_ge_extend_right(
                    crows,
                    spec_children_rows(file, cells, i + 1, f2) + b,
                    target,
                    opt,
                );
                lemma_first_ge_from(file, cells, lo, hi, 0, i, f2, target, b, opt);
                assert(spec_descend(file, num, target, dfuel) == spec_descend(
                    file,
                    child,
                    target,
                    (dfuel - 1) as nat,
                ));
            },
            None => {
                lemma_children_all_below(file, cells, lo, hi, 0, f2, target);
                lemma_descend_finds(file, rmp, target, last, hi, f2, (dfuel - 1) as nat);
                let opt = spec_descend(file, rmp, target, (dfuel - 1) as nat)->Ok_0;
                lemma_first_ge_extend_left(a, b, target, opt);
                assert(spec_descend(file, num, target, dfuel) == spec_descend(
                    file,
                    rmp,
                    target,
                    (dfuel - 1) as nat,
                ));
            },
        }
    }
}

/// The fuel every full-tree operation runs with: one unit per byte of the
/// file, plus one.  A well-formed tree's pages are distinct along any
/// descent, so any real database's depth fits.
pub open spec fn spec_btree_fuel(file: Seq<u8>) -> nat {
    (file.len() + 1) as nat
}

/// A well-formed table B-tree root: rowids are positive and fit in 64
/// bits.
pub open spec fn wf_table_root(file: Seq<u8>, num: int) -> bool {
    exists|hi: int| 0 <= hi <= u64::MAX && wf_table(file, num, 0, hi, spec_btree_fuel(file))
}

/// The rows of the table rooted at page `num`, in rowid order.
pub open spec fn spec_rows_of_root(file: Seq<u8>, num: int) -> Seq<RowModel> {
    spec_table_rows(file, num, spec_btree_fuel(file))
}

/// The rows held by a sequence of table-leaf cells.
pub open spec fn spec_cells_rows(cs: Seq<Cell>) -> Seq<RowModel> {
    Seq::new(cs.len(), |i: int| spec_row_of(cs[i]@))
}

/// Whatever the input, a successful descent answers with a table-leaf
/// cell whose rowid reaches the target.
pub proof fn lemma_descend_ge(file: Seq<u8>, num: int, target: int, fuel: nat)
    requires
        spec_descend(file, num, target, fuel) matches Ok(o) && o is Some,
    ensures
        spec_descend(file, num, target, fuel)->Ok_0->0 is LeafTable,
        spec_rowid_of(spec_descend(file, num, target, fuel)->Ok_0->0) >= target,
    decreases fuel,
{
    let s = crate::db::spec_page_bytes(file, num);
    let hoff = crate::db::spec_header_offset(num);
    match spec_btree_scan(s, hoff, target) {
        Err(_) => {},
        Ok(BtreeScanModel::Pointer(p)) => {
            lemma_descend_ge(file, p, target, (fuel - 1) as nat);
        },
        Ok(BtreeScanModel::Leaf(opt)) => {
            let h = spec_page_header(s, hoff)->Ok_0;
            let cells = spec_cells(s, hoff)->Ok_0;
            crate::page::lemma_cells_match(s, hoff, h.kind, h.num_of_cells as int, 0);
            lemma_first_ge_props(cells, target, 0);
            match spec_first_ge(cells, target, 0) {
                Some(k) => {
                    assert(crate::page::spec_cell_matches(h.kind, cells[k]));
                },
                None => {},
            }
        },
    }
}

/// Scans the whole table rooted at `root`: every row, in strictly
/// ascending rowid order, by repeated descent with a target one past the
/// last rowid yielded.
///
/// The rowids of the cells returned always ascend strictly.  On a
/// well-formed root the scan cannot fail and returns exactly the rows of
/// the tree, in order.
pub fn scan_table(db: &Db, root: PageNum) -> (r: Result<Vec<Cell>, Error>)
    ensures
        r matches Ok(cs) ==> (forall|i: int| 0 <= i < cs@.len() ==> #[trigger] cs@[i]@ is LeafTable)
            && spec_rows_sorted(spec_cells_rows(cs@)),
        wf_table_root(db@, root as int) ==> (r matches Ok(cs) && spec_cells_rows(cs@)
            == spec_rows_of_root(db@, root as int)),
{
    let ghost file = db@;
    let ghost all = spec_rows_of_root(file, root as int);
    let mut out: Vec<Cell> = Vec::new();
    let mut target: u64 = 0;
    proof {
        if wf_table_root(file, root as int) {
            let hi = choose|hi: int|
                0 <= hi <= u64::MAX && wf_table(file, root as int, 0, hi, spec_btree_fuel(file));
            lemma_rows_in(file, root as int, 0, hi, spec_btree_fuel(file));
        }
    }
    loop
        invariant
            file == db@,
            all == spec_rows_of_root(file, root as int),
            forall|i: int| 0 <= i < out@.len() ==> #[trigger] out@[i]@ is LeafTable,
            forall|i: int|
                0 <= i < out@.len() ==> #[trigger] spec_row_of(out@[i]@).0 < target,
            spec_rows_sorted(spec_cells_rows(out@)),
            wf_table_root(file, root as int) ==> {
                &&& out@.len() <= all.len()
                &&& (forall|j: int|
                    0 <= j < out@.len() ==> #[trigger] spec_cells_rows(out@)[j] == all[j])
                &&& (forall|j: int| 0 <= j < out@.len() ==> #[trigger] all[j].0 < target)
                &&& (out@.len() < all.len() ==> all[out@.len() as int].0 >= target)
            },
        decreases u64::MAX - target,
    {
        let step = match descend_table(db, root, target) {
            Ok(s) => s,
            Err(e) => {
                proof {
                    if wf_table_root(file, root as int) {
                        let hi = choose|hi: int|
                            0 <= hi <= u64::MAX && wf_table(
                                file,
                                root as int,
                                0,
                                hi,
                                spec_btree_fuel(file),
                            );
                        lemma_descend_finds(
                            file,
                            root as int,
                            target as int,
                            0,
                            hi,
                            spec_btree_fuel(file),
                            spec_btree_fuel(file),
                        );
                    }
                }
                return Err(e);
            },
        };
        proof {
            if wf_table_root(file, root as int) {
                let hi = choose|hi: int|
                    0 <= hi <= u64::MAX && wf_table(file, root as int, 0, hi, spec_btree_fuel(file));
                lemma_descend_finds(
                    file,
                    root as int,
                    target as int,
                    0,
                    hi,
                    spec_btree_fuel(file),
                    spec_btree_fuel(file),
                );
                lemma_rows_sorted(file, root as int, 0, hi, spec_btree_fuel(file));
                lemma_rows_in(file, root as int, 0, hi, spec_btree_fuel(file));
            }
        }
        match step {
            None => {
                proof {
                    if wf_table_root(file, root as int) {
                        // nothing reaches the target, so everything is
                        // already collected
                        if out@.len() < all.len() {
                            assert(all[out@.len() as int].0 < target);
                        }
                        assert(spec_cells_rows(out@) =~= all);
                    }
                }
                return Ok(out);
            },
            Some(c) => {
                proof {
                    lemma_descend_ge(
                        file,
                        root as int,
                        target as int,
                        spec_btree_fuel(file),
                    );
                }
                let rid = match c.rowid() {
                    Some(rv) => rv,
                    None => {
                        return Err(Error::CorruptBtree);
                    },
                };
                proof {
                    assert(spec_row_of(c@).0 == rid);
                    if wf_table_root(file, root as int) {
                        let k = out@.len() as int;
                        // the found row is exactly the next uncollected one
                        let kk = choose|kk: int|
                            0 <= kk < all.len() && #[trigger] all[kk] == spec_row_of(c@)
                                && all[kk].0 >= target && (forall|j: int|
                                0 <= j < kk ==> #[trigger] all[j].0 < target);
                        if kk > k {
                            assert(all[k].0 < target);
                        }
                        if kk < k {
                            assert(all[kk].0 < target);
                        }
                        assert(kk == k);
                        assert(spec_cells_rows(out@.push(c)) =~= spec_cells_rows(out@).push(
                            spec_row_of(c@),
                        ));
                    }
                    assert(spec_cells_rows(out@.push(c)) =~= spec_cells_rows(out@).push(
                        spec_row_of(c@),
                    ));
                }
                out.push(c);
                if rid == u64::MAX {
                    proof {
                        if wf_table_root(file, root as int) {
                            if out@.len() < all.len() {
                                assert(all[out@.len() as int].0 > all[out@.len() - 1].0);
                            }
                            assert(spec_cells_rows(out@) =~= all);
                        }
                    }
                    return Ok(out);
                }
                target = rid + 1;
            },
        }
    }
}

/// Looks the row with rowid `rowid` up in the table rooted at `root`: one
/// descent, then a check that the leaf cell found really carries that
/// rowid.  On a well-formed root it answers `Some` with the row exactly
/// when the table holds that rowid, `None` otherwise.
pub fn lookup_table(db: &Db, root: PageNum, rowid: RowId) -> (r: Result<Option<Cell>, Error>)
    ensures
        wf_table_root(db@, root as int) ==> match r {
            Ok(opt) => {
                let all = spec_rows_of_root(db@, root as int);
                match opt {
                    Some(c) => c@ is LeafTable && (exists|k: int|
                        0 <= k < all.len() && #[trigger] all[k] == spec_row_of(c@) && all[k].0
                            == rowid),
                    None => forall|k: int| 0 <= k < all.len() ==> #[trigger] all[k].0 != rowid,
                }
            },
            Err(_) => false,
        },
{
    let ghost file = db@;
    let ghost all = spec_rows_of_root(file, root as int);
    proof {
        if wf_table_root(file, root as int) {
            let hi = choose|hi: int|
                0 <= hi <= u64::MAX && wf_table(file, root as int, 0, hi, spec_btree_fuel(file));
            lemma_descend_finds(
                file,
                root as int,
                rowid as int,
                0,
                hi,
                spec_btree_fuel(file),
                spec_btree_fuel(file),
            );
            lemma_rows_sorted(file, root as int, 0, hi, spec_btree_fuel(file));
        }
    }
    let step = match descend_table(db, root, rowid) {
        Ok(s) => s,
        Err(e) => {
            return Err(e);
        },
    };
    match step {
        Some(c) => {
            proof {
                lemma_descend_ge(file, root as int, rowid as int, spec_btree_fuel(file));
            }
            let found = match c.rowid() {
                Some(rv) => rv == rowid,
                None => false,
            };
            if found {
                return Ok(Some(c));
            }
            proof {
                if wf_table_root(file, root as int) {
                    // the first row at or past `rowid` overshot it, and
                    // everything later is larger still
                    let kk = choose|kk: int|
                        0 <= kk < all.len() && #[trigger] all[kk] == spec_row_of(c@) && all[kk].0
                            >= rowid && (forall|j: int|
                            0 <= j < kk ==> #[trigger] all[j].0 < rowid);
                    assert forall|k: int| 0 <= k < all.len() implies #[trigger] all[k].0
                        != rowid by {
                        if k >= kk && k < all.len() {
                            if k > kk {
                                assert(all[kk].0 < all[k].0);
                            }
                        }
                    }
                }
            }
            Ok(None)
        },
        None => {
            Ok(None)
        },
    }
}

/// A full scan of a well-formed table yields rowids in strictly
/// ascending order — so without duplicates — and yields every row of the
/// tree's leaves: `spec_rows_of_root` is, by construction, the
/// concatenation of the leaf pages' cells in B-tree order.
pub proof fn lemma_scan_ascending(file: Seq<u8>, root: int)
    requires
        wf_table_root(file, root),
    ensures
        spec_rows_sorted(spec_rows_of_root(file, root)),
{
    let hi = choose|hi: int|
        0 <= hi <= u64::MAX && wf_table(file, root, 0, hi, spec_btree_fuel(file));
    lemma_rows_sorted(file, root, 0, hi, spec_btree_fuel(file));
}

/// How many cells the table subtree's leaf pages hold, all together.
pub open spec fn spec_leaf_cell_count(file: Seq<u8>, num: int, fuel: nat) -> int
    decreases fuel, 0nat, 0nat,
{
    if fuel == 0 {
        0
    } else {
        let s = crate::db::spec_page_bytes(file, num);
        let hoff = crate::db::spec_header_offset(num);
        match spec_page_header(s, hoff) {
            Err(_) => 0,
            Ok(h) => match spec_cells(s, hoff) {
                Err(_) => 0,
                Ok(cells) => {
                    if h.kind is LeafTable {
                        cells.len() as int
                    } else if h.kind is InteriorTable {
                        spec_children_leaf_count(file, cells, 0, (fuel - 1) as nat) + (
                        match h.right_most_pointer {
                            Some(p) => spec_leaf_cell_count(file, p as int, (fuel - 1) as nat),
                            None => 0,
                        })
                    } else {
                        0
                    }
                },
            },
        }
    }
}

/// The leaf cells under the left children of `cells[i..]`.
pub open spec fn spec_children_leaf_count(
    file: Seq<u8>,
    cells: Seq<CellModel>,
    i: int,
    fuel: nat,
) -> int
    decreases fuel, 1nat, (if i < cells.len() { (cells.len() - i) as nat } else { 0nat }),
{
    if i < 0 || i >= cells.len() {
        0
    } else {
        spec_leaf_cell_count(file, spec_left_of(cells[i]), fuel) + spec_children_leaf_count(
            file,
            cells,
            i + 1,
            fuel,
        )
    }
}

/// A scan yields exactly one row per cell of the subtree's leaf pages:
/// its count is the leaf pages' total cell count.
pub proof fn lemma_scan_count_is_leaf_cells(file: Seq<u8>, num: int, fuel: nat)
    ensures
        spec_table_rows(file, num, fuel).len() == spec_leaf_cell_count(file, num, fuel),
    decreases fuel, 0nat, 0nat,
{
    if fuel > 0 {
        let s = crate::db::spec_page_bytes(file, num);
        let hoff = crate::db::spec_header_offset(num);
        match spec_page_header(s, hoff) {
            Err(_) => {},
            Ok(h) => match spec_cells(s, hoff) {
                Err(_) => {},
                Ok(cells) => {
                    if h.kind is InteriorTable {
                        let f2 = (fuel - 1) as nat;
                        lemma_children_count(file, cells, 0, f2);
                        match h.right_most_pointer {
                            Some(p) => {
                                lemma_scan_count_is_leaf_cells(file, p as int, f2);
                            },
                            None => {},
                        }
                    }
                },
            },
        }
    }
}

proof fn lemma_children_count(file: Seq<u8>, cells: Seq<CellModel>, i: int, fuel: nat)
    ensures
        spec_children_rows(file, cells, i, fuel).len() == spec_children_leaf_count(
            file,
            cells,
            i,
            fuel,
        ),
    decreases fuel, 1nat, (if i < cells.len() { (cells.len() - i) as nat } else { 0nat }),
{
    if 0 <= i < cells.len() {
        lemma_scan_count_is_leaf_cells(file, spec_left_of(cells[i]), fuel);
        lemma_children_count(file, cells, i + 1, fuel);
    }
}

/// For every row a full scan of a well-formed table yields, the
/// point-lookup descent for its rowid answers with exactly that row.
pub proof fn lemma_lookup_finds_scanned_row(file: Seq<u8>, root: int, k: int)
    requires
        wf_table_root(file, root),
        0 <= k < spec_rows_of_root(file, root).len(),
    ensures
        ({
            let all = spec_rows_of_root(file, root);
            spec_descend(file, root, all[k].0, spec_btree_fuel(file)) matches Ok(o) && o matches
                Some(c) && spec_row_of(c) == all[k]
        }),
{
    let all = spec_rows_of_root(file, root);
    let target = all[k].0;
    let hi = choose|hi: int|
        0 <= hi <= u64::MAX && wf_table(file, root, 0, hi, spec_btree_fuel(file));
    lemma_descend_finds(file, root, target, 0, hi, spec_btree_fuel(file), spec_btree_fuel(file));
    lemma_rows_sorted(file, root, 0, hi, spec_btree_fuel(file));
    let opt = spec_descend(file, root, target, spec_btree_fuel(file))->Ok_0;
    if opt is None {
        assert(all[k].0 < target);
    }
    let c = opt->0;
    let kk = choose|kk: int|
        0 <= kk < all.len() && #[trigger] all[kk] == spec_row_of(c) && all[kk].0 >= target && (
        forall|j: int| 0 <= j < kk ==> #[trigger] all[j].0 < target);
    if kk < k {
        assert(all[kk].0 < all[k].0);
    }
    if kk > k {
        assert(all[k].0 < target);
    }
    assert(kk == k);
}

/// A table leaf with no cells yields no rows, and a descent that reaches
/// it ends there with an empty answer.
pub proof fn lemma_empty_leaf_terminal(file: Seq<u8>, num: int, target: int, fuel: nat)
    requires
        ({
            let s = crate::db::spec_page_bytes(file, num);
            let hoff = crate::db::spec_header_offset(num);
            &&& spec_page_header(s, hoff) matches Ok(h) && h.kind is LeafTable
                && h.num_of_cells == 0
        }),
        fuel > 0,
    ensures
        spec_table_rows(file, num, fuel) =~= Seq::<RowModel>::empty(),
        crate::db::spec_page_in_file(file, num) ==> spec_descend(file, num, target, fuel)
            == Ok::<Option<CellModel>, Error>(None),
{
    let s = crate::db::spec_page_bytes(file, num);
    let hoff = crate::db::spec_header_offset(num);
    let h = spec_page_header(s, hoff)->Ok_0;
    assert(spec_cells(s, hoff) == Ok::<Seq<CellModel>, Error>(Seq::empty()));
    assert(spec_first_ge(Seq::<CellModel>::empty(), target, 0) is None);
}

} // verus!
