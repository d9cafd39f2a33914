//! Index B-tree search: finding the rowids paired with an equality key.
//!
//! An index B-tree stores `(key, rowid)` pairs ordered by key, rowid as
//! tie-breaker.  A probe for a key repeatedly descends from the index
//! root carrying the last rowid already yielded; a leaf answers with the
//! first equal-key entry past it.  An equal-key entry can live in an
//! interior cell, which a plain descent would skip, so the descent
//! remembers the most recent interior cell whose key equalled the target
//! and falls back to its rowid when the leaf has nothing left.  Only an
//! exactly equal interior key is remembered: a greater key's rowid is no
//! answer to an equality probe, so carrying it would hand back rows of
//! the wrong key.

use vstd::prelude::*;
use crate::btree::{BtreeIndexSearch, spec_left_of};
use crate::cell::{spec_index_payload, CellModel, RowId, ValueModel};
use crate::db::Db;
use crate::error::Error;
use crate::page::{spec_cells, spec_page_header, Page, PageNum};
use crate::text::{bytes_eq, lex_lt, spec_lex_lt};

verus! {

/// The key ordering an index probe uses: an entry's key reaches the
/// target exactly when it is text and does not come before the target in
/// byte order.  Non-text keys never compare.
pub open spec fn spec_key_ge(v: ValueModel, key: Seq<u8>) -> bool {
    match v {
        ValueModel::Text(t) => !spec_lex_lt(t, key),
        _ => false,
    }
}

/// An entry's key equals the target: text, byte for byte.
pub open spec fn spec_key_eq(v: ValueModel, key: Seq<u8>) -> bool {
    match v {
        ValueModel::Text(t) => t == key,
        _ => false,
    }
}

/// The first cell at or after `i` whose payload key reaches `key`.
pub open spec fn spec_first_key_ge(cells: Seq<CellModel>, key: Seq<u8>, i: int) -> Option<int>
    decreases cells.len() - i,
{
    if i < 0 || i >= cells.len() {
        None
    } else if spec_index_payload(cells[i]) matches Some((k, _)) && spec_key_ge(k, key) {
        Some(i)
    } else {
        spec_first_key_ge(cells, key, i + 1)
    }
}

/// The first cell at or after `i` whose payload key equals `key` and
/// whose rowid lies strictly past `last`.
pub open spec fn spec_first_key_match(cells: Seq<CellModel>, key: Seq<u8>, last: int, i: int)
    -> Option<int>
    decreases cells.len() - i,
{
    if i < 0 || i >= cells.len() {
        None
    } else if spec_index_payload(cells[i]) matches Some((k, rid)) && spec_key_eq(k, key) && rid
        > last {
        Some(i)
    } else {
        spec_first_key_match(cells, key, last, i + 1)
    }
}

/// The mathematical reading of an index-search step.
pub enum IndexStepModel {
    /// Descend into the child, with the rowid of an equal-key interior
    /// cell as fallback, if one was seen here.
    PointerOrRowId(int, Option<int>),
    /// A leaf's answer: the first equal-key rowid past the last one, if
    /// any.
    RowId(Option<int>),
}

impl View for BtreeIndexSearch {
    type V = IndexStepModel;

    open spec fn view(&self) -> IndexStepModel {
        match self {
            BtreeIndexSearch::PointerOrRowId(p, Some(m)) => IndexStepModel::PointerOrRowId(
                *p as int,
                Some(*m as int),
            ),
            BtreeIndexSearch::PointerOrRowId(p, None) => IndexStepModel::PointerOrRowId(
                *p as int,
                None,
            ),
            BtreeIndexSearch::RowId(Some(r)) => IndexStepModel::RowId(Some(*r as int)),
            BtreeIndexSearch::RowId(None) => IndexStepModel::RowId(None),
        }
    }
}

/// One step of an index-B-tree search on the page held by `s`: on an
/// interior index page, descend at the first cell whose key reaches the
/// target — remembering its rowid when the key is an exact match — or
/// through the right-most child when no key does; on an index leaf,
/// answer the first equal-key rowid past `last`.  Table pages are a
/// wrong turn.
pub open spec fn spec_index_step(s: Seq<u8>, hoff: int, last: int, key: Seq<u8>) -> Result<
    IndexStepModel,
    Error,
> {
    match spec_page_header(s, hoff) {
        Err(e) => Err(e),
        Ok(h) => {
            if h.kind is InteriorIndex {
                match spec_cells(s, hoff) {
                    Err(e) => Err(e),
                    Ok(cells) => match spec_first_key_ge(cells, key, 0) {
                        Some(i) => {
                            let (k, rid) = spec_index_payload(cells[i])->0;
                            Ok(
                                IndexStepModel::PointerOrRowId(
                                    spec_left_of(cells[i]),
                                    if spec_key_eq(k, key) {
                                        Some(rid)
                                    } else {
                                        None
                                    },
                                ),
                            )
                        },
                        None => match h.right_most_pointer {
                            Some(p) => Ok(IndexStepModel::PointerOrRowId(p as int, None)),
                            None => Err(Error::CorruptBtree),
                        },
                    },
                }
            } else if h.kind is LeafIndex {
                match spec_cells(s, hoff) {
                    Err(e) => Err(e),
                    Ok(cells) => match spec_first_key_match(cells, key, last, 0) {
                        Some(i) => Ok(
                            IndexStepModel::RowId(Some((spec_index_payload(cells[i])->0).1)),
                        ),
                        None => Ok(IndexStepModel::RowId(None)),
                    },
                }
            } else {
                Err(Error::UnexpectedPageType)
            }
        },
    }
}

impl Page {
    /// One step of the index-B-tree search for `key` past `last` on this
    /// page, exactly as `spec_index_step` reads it.
    pub fn btree_search(&self, last: RowId, key: &[u8]) -> (r: Result<BtreeIndexSearch, Error>)
        ensures
            match r {
                Ok(step) => spec_index_step(self.buf@, self.header_offset as int, last as int, key@)
                    matches Ok(m) && step@ == m,
                Err(e) => spec_index_step(self.buf@, self.header_offset as int, last as int, key@)
                    == Err::<IndexStepModel, Error>(e),
            },
    {
        let ghost s = self.buf@;
        let ghost hoff = self.header_offset as int;
        let h = match self.header() {
            Ok(h) => h,
            Err(e) => {
                return Err(e);
            },
        };
        let interior = match h.kind {
            crate::page::PageType::InteriorIndex => true,
            crate::page::PageType::LeafIndex => false,
            _ => {
                return Err(Error::UnexpectedPageType);
            },
        };
        let cells = match self.cells() {
            Ok(cs) => cs,
            Err(e) => {
                return Err(e);
            },
        };
        let ghost ms = spec_cells(s, hoff)->Ok_0;
        proof {
            crate::page::lemma_cells_match(s, hoff, h.kind, h.num_of_cells as int, 0);
        }
        let n = cells.len();
        let mut i: usize = 0;
        while i < n
            invariant
                s == self.buf@,
                hoff == self.header_offset as int,
                i <= n == cells@.len() == ms.len(),
                forall|j: int| 0 <= j < n ==> #[trigger] cells@[j]@ == ms[j],
                forall|j: int|
                    0 <= j < n ==> #[trigger] crate::page::spec_cell_matches(h.kind, ms[j]),
                spec_page_header(s, hoff) == Ok::<crate::page::PageHeader, Error>(h),
                spec_cells(s, hoff) == Ok::<Seq<CellModel>, Error>(ms),
                interior == (h.kind is InteriorIndex),
                h.kind is InteriorIndex || h.kind is LeafIndex,
                interior ==> spec_first_key_ge(ms, key@, 0) == spec_first_key_ge(
                    ms,
                    key@,
                    i as int,
                ),
                !interior ==> spec_first_key_match(ms, key@, last as int, 0)
                    == spec_first_key_match(ms, key@, last as int, i as int),
            decreases n - i,
        {
            assert(cells@[i as int]@ == ms[i as int]);
            assert(crate::page::spec_cell_matches(h.kind, ms[i as int]));
            let payload = cells[i].index_payload();
            if interior {
                let hit = match &payload {
                    Some((k, _)) => {
                        match k {
                            crate::cell::RecordValue::Text(t) => !lex_lt(t.as_slice(), key),
                            _ => false,
                        }
                    },
                    None => false,
                };
                if hit {
                    assert(spec_first_key_ge(ms, key@, i as int) == Some(i as int));
                    let exact = match &payload {
                        Some((k, _)) => {
                            match k {
                                crate::cell::RecordValue::Text(t) => bytes_eq(t.as_slice(), key),
                                _ => false,
                            }
                        },
                        None => false,
                    };
                    let m = if exact {
                        match &payload {
                            Some((_, rid)) => Some(*rid),
                            None => None,
                        }
                    } else {
                        None
                    };
                    match cells[i].left() {
                        Some(p) => {
                            return Ok(BtreeIndexSearch::PointerOrRowId(p, m));
                        },
                        None => {
                            return Err(Error::CorruptBtree);
                        },
                    }
                }
            } else {
                let hit = match &payload {
                    Some((k, rid)) => {
                        match k {
                            crate::cell::RecordValue::Text(t) => *rid > last && bytes_eq(
                                t.as_slice(),
                                key,
                            ),
                            _ => false,
                        }
                    },
                    None => false,
                };
                if hit {
                    assert(spec_first_key_match(ms, key@, last as int, i as int) == Some(i as int));
                    match payload {
                        Some((_, rid)) => {
                            return Ok(BtreeIndexSearch::RowId(Some(rid)));
                        },
                        None => {
                            return Err(Error::CorruptBtree);
                        },
                    }
                }
            }
            i = i + 1;
        }
        if interior {
            assert(spec_first_key_ge(ms, key@, 0) is None);
            match h.right_most_pointer {
                Some(p) => Ok(BtreeIndexSearch::PointerOrRowId(p, None)),
                None => Err(Error::CorruptBtree),
            }
        } else {
            assert(spec_first_key_match(ms, key@, last as int, 0) is None);
            Ok(BtreeIndexSearch::RowId(None))
        }
    }
}

/// The full index descent from page `num` for `key` past `last`: index
/// steps followed down child pointers, `m` the fallback rowid of the
/// nearest enclosing exact interior match — replaced, even by nothing, at
/// every interior level, as the probe only trusts the deepest one — and
/// applied when the leaf answers empty.
pub open spec fn spec_index_descend(
    file: Seq<u8>,
    num: int,
    last: int,
    key: Seq<u8>,
    m: Option<int>,
    fuel: nat,
) -> Result<Option<int>, Error>
    decreases fuel,
{
    if fuel == 0 {
        Err(Error::CorruptBtree)
    } else if !crate::db::spec_page_in_file(file, num) {
        Err(crate::btree::spec_page_err(file, num))
    } else {
        let s = crate::db::spec_page_bytes(file, num);
        let hoff = crate::db::spec_header_offset(num);
        match spec_index_step(s, hoff, last, key) {
            Err(e) => Err(e),
            Ok(IndexStepModel::PointerOrRowId(p, m2)) => spec_index_descend(
                file,
                p,
                last,
                key,
                m2,
                (fuel - 1) as nat,
            ),
            Ok(IndexStepModel::RowId(opt)) => match opt {
                Some(r) => Ok(Some(r)),
                None => Ok(m),
            },
        }
    }
}

/// Descends the index B-tree rooted at `root` for the next rowid paired
/// with `key` past `last`, exactly as `spec_index_descend` reads it with
/// one unit of fuel per byte of the file, plus one.
pub fn descend_index(db: &Db, root: PageNum, last: RowId, key: &[u8]) -> (r: Result<
    Option<RowId>,
    Error,
>)
    ensures
        ({
            let m = spec_index_descend(
                db@,
                root as int,
                last as int,
                key@,
                None,
                crate::btree::spec_btree_fuel(db@),
            );
            match r {
                Ok(Some(rid)) => m == Ok::<Option<int>, Error>(Some(rid as int)),
                Ok(None) => m == Ok::<Option<int>, Error>(None),
                Err(e) => m == Err::<Option<int>, Error>(e),
            }
        }),
{
    let mut num: PageNum = root;
    let mut fallback: Option<RowId> = None;
    let mut fuel: u128 = db.data.len() as u128 + 1;
    loop
        invariant
            spec_index_descend(
                db@,
                root as int,
                last as int,
                key@,
                None,
                crate::btree::spec_btree_fuel(db@),
            ) == spec_index_descend(
                db@,
                num as int,
                last as int,
                key@,
                match fallback {
                    Some(r) => Some(r as int),
                    None => None,
                },
                fuel as nat,
            ),
        decreases fuel,
    {
        if fuel == 0 {
            return Err(Error::CorruptBtree);
        }
        let page = match db.page(num) {
            Ok(p) => p,
            Err(e) => {
                return Err(e);
            },
        };
        match page.btree_search(last, key) {
            Ok(BtreeIndexSearch::PointerOrRowId(p, m2)) => {
                num = p;
                fallback = m2;
                fuel = fuel - 1;
            },
            Ok(BtreeIndexSearch::RowId(opt)) => {
                match opt {
                    Some(r) => {
                        return Ok(Some(r));
                    },
                    None => {
                        return Ok(fallback);
                    },
                }
            },
            Err(e) => {
                return Err(e);
            },
        }
    }
}

/// The views of a vector of rowids.
pub open spec fn spec_rowid_views(v: Seq<RowId>) -> Seq<int> {
    Seq::new(v.len(), |i: int| v[i] as int)
}

/// The rowid chain a probe for `key` yields from the index rooted at
/// `root`, continuing past `last`: each rowid found by one descent past
/// the one before, stopping at the first descent that answers empty,
/// fails, or fails to advance.
pub open spec fn spec_probe_chain(file: Seq<u8>, root: int, key: Seq<u8>, last: int) -> Seq<int>
    decreases u64::MAX - last,
    when 0 <= last <= u64::MAX
{
    match spec_index_descend(file, root, last, key, None, crate::btree::spec_btree_fuel(file)) {
        Ok(o) => match o {
            Some(rid) => if last < rid <= u64::MAX {
                seq![rid] + spec_probe_chain(file, root, key, rid)
            } else {
                Seq::empty()
            },
            None => Seq::empty(),
        },
        Err(_) => Seq::empty(),
    }
}

/// Every rowid the index rooted at `root` pairs with `key`, as the probe
/// yields them: exactly the probe chain from before rowid 1, strictly
/// ascending; a failure is always some descent's failure.
#[verifier::rlimit(80)]
pub fn index_rowids(db: &Db, root: PageNum, key: &[u8]) -> (r: Result<Vec<RowId>, Error>)
    ensures
        ({
            let fuel = crate::btree::spec_btree_fuel(db@);
            match r {
                Ok(rids) => {
                    &&& spec_rowid_views(rids@) == spec_probe_chain(db@, root as int, key@, 0)
                    &&& (forall|i: int, j: int|
                        0 <= i < j < rids@.len() ==> #[trigger] rids@[i] < #[trigger] rids@[j])
                    &&& (forall|j: int|
                        #![trigger rids@[j]]
                        0 <= j < rids@.len() ==> spec_index_descend(
                            db@,
                            root as int,
                            if j == 0 {
                                0
                            } else {
                                rids@[j - 1] as int
                            },
                            key@,
                            None,
                            fuel,
                        ) == Ok::<Option<int>, Error>(Some(rids@[j] as int)))
                    &&& (forall|j: int|
                        0 <= j < rids@.len() ==> spec_entries_contain(
                            spec_index_entries(db@, root as int, fuel),
                            key@,
                            #[trigger] rids@[j] as int,
                        ))
                },
                Err(e) => exists|l: int|
                    0 <= l <= u64::MAX && #[trigger] spec_index_descend(
                        db@,
                        root as int,
                        l,
                        key@,
                        None,
                        fuel,
                    ) == Err::<Option<int>, Error>(e),
            }
        }),
{
    let mut out: Vec<RowId> = Vec::new();
    let mut last: RowId = 0;
    proof {
        assert(spec_rowid_views(out@) + spec_probe_chain(db@, root as int, key@, 0)
            =~= spec_probe_chain(db@, root as int, key@, 0));
    }
    loop
        invariant
            out@.len() > 0 ==> last == out@[out@.len() - 1],
            out@.len() == 0 ==> last == 0,
            spec_rowid_views(out@) + spec_probe_chain(db@, root as int, key@, last as int)
                == spec_probe_chain(db@, root as int, key@, 0),
            forall|i: int, j: int|
                0 <= i < j < out@.len() ==> #[trigger] out@[i] < #[trigger] out@[j],
            forall|j: int|
                #![trigger out@[j]]
                0 <= j < out@.len() ==> spec_index_descend(
                    db@,
                    root as int,
                    if j == 0 {
                        0
                    } else {
                        out@[j - 1] as int
                    },
                    key@,
                    None,
                    crate::btree::spec_btree_fuel(db@),
                ) == Ok::<Option<int>, Error>(Some(out@[j] as int)),
            forall|j: int|
                0 <= j < out@.len() ==> spec_entries_contain(
                    spec_index_entries(db@, root as int, crate::btree::spec_btree_fuel(db@)),
                    key@,
                    #[trigger] out@[j] as int,
                ),
        decreases u64::MAX - last,
    {
        let next = match descend_index(db, root, last, key) {
            Ok(o) => o,
            Err(e) => {
                proof {
                    assert(spec_index_descend(
                        db@,
                        root as int,
                        last as int,
                        key@,
                        None,
                        crate::btree::spec_btree_fuel(db@),
                    ) == Err::<Option<int>, Error>(e));
                }
                return Err(e);
            },
        };
        match next {
            Some(rid) => {
                if rid <= last {
                    // no progress: the fallback has been exhausted
                    proof {
                        assert(spec_probe_chain(db@, root as int, key@, last as int)
                            =~= Seq::<int>::empty());
                        assert(spec_rowid_views(out@) + Seq::<int>::empty() =~= spec_rowid_views(
                            out@,
                        ));
                    }
                    return Ok(out);
                }
                proof {
                    lemma_index_probe_sound(
                        db@,
                        root as int,
                        last as int,
                        key@,
                        crate::btree::spec_btree_fuel(db@),
                    );
                    assert(spec_probe_chain(db@, root as int, key@, last as int) == seq![
                        rid as int,
                    ] + spec_probe_chain(db@, root as int, key@, rid as int));
                    assert(spec_rowid_views(out@.push(rid)) =~= spec_rowid_views(out@).push(
                        rid as int,
                    ));
                    assert(spec_rowid_views(out@).push(rid as int) + spec_probe_chain(
                        db@,
                        root as int,
                        key@,
                        rid as int,
                    ) =~= spec_rowid_views(out@) + (seq![rid as int] + spec_probe_chain(
                        db@,
                        root as int,
                        key@,
                        rid as int,
                    )));
                }
                out.push(rid);
                last = rid;
            },
            None => {
                proof {
                    assert(spec_probe_chain(db@, root as int, key@, last as int)
                        =~= Seq::<int>::empty());
                    assert(spec_rowid_views(out@) + Seq::<int>::empty() =~= spec_rowid_views(
                        out@,
                    ));
                }
                return Ok(out);
            },
        }
    }
}

/// One index entry: a key and the rowid it is paired with.
pub type EntryModel = (ValueModel, int);

/// Every (key, rowid) pair the index subtree rooted at `num` holds, in
/// B-tree order: under an interior page, each child's entries, then the
/// cell's own pair, then the right-most child's entries.
pub open spec fn spec_index_entries(file: Seq<u8>, num: int, fuel: nat) -> Seq<EntryModel>
    decreases fuel, 0nat, 0nat,
{
    if fuel == 0 {
        Seq::empty()
    } else {
        let s = crate::db::spec_page_bytes(file, num);
        let hoff = crate::db::spec_header_offset(num);
        match spec_page_header(s, hoff) {
            Err(_) => Seq::empty(),
            Ok(h) => match spec_cells(s, hoff) {
                Err(_) => Seq::empty(),
                Ok(cells) => {
                    if h.kind is LeafIndex {
                        spec_leaf_entries(cells, 0)
                    } else if h.kind is InteriorIndex {
                        spec_children_entries(file, cells, 0, (fuel - 1) as nat) + (
                        match h.right_most_pointer {
                            Some(p) => spec_index_entries(file, p as int, (fuel - 1) as nat),
                            None => Seq::empty(),
                        })
                    } else {
                        Seq::empty()
                    }
                },
            },
        }
    }
}

/// The entries of an index leaf's cells, in cell order.
pub open spec fn spec_leaf_entries(cells: Seq<CellModel>, i: int) -> Seq<EntryModel>
    decreases cells.len() - i,
{
    if i < 0 || i >= cells.len() {
        Seq::empty()
    } else {
        (match spec_index_payload(cells[i]) {
            Some(e) => seq![e],
            None => Seq::empty(),
        }) + spec_leaf_entries(cells, i + 1)
    }
}

/// The entries under `cells[i..]` of an interior index page: each left
/// child's entries followed by the cell's own pair.
pub open spec fn spec_children_entries(
    file: Seq<u8>,
    cells: Seq<CellModel>,
    i: int,
    fuel: nat,
) -> Seq<EntryModel>
    decreases fuel, 1nat, (if i < cells.len() { (cells.len() - i) as nat } else { 0nat }),
{
    if i < 0 || i >= cells.len() {
        Seq::empty()
    } else {
        spec_index_entries(file, spec_left_of(cells[i]), fuel) + (match spec_index_payload(
            cells[i],
        ) {
            Some(e) => seq![e],
            None => Seq::empty(),
        }) + spec_children_entries(file, cells, i + 1, fuel)
    }
}

/// `entries` holds a pair whose key equals `key` exactly and whose rowid
/// is `rid`.
pub open spec fn spec_entries_contain(entries: Seq<EntryModel>, key: Seq<u8>, rid: int) -> bool {
    exists|k: int|
        0 <= k < entries.len() && spec_key_eq(#[trigger] entries[k].0, key) && entries[k].1 == rid
}

proof fn lemma_contain_left(a: Seq<EntryModel>, b: Seq<EntryModel>, key: Seq<u8>, rid: int)
    requires
        spec_entries_contain(a, key, rid),
    ensures
        spec_entries_contain(a + b, key, rid),
{
    let k = choose|k: int|
        0 <= k < a.len() && spec_key_eq(#[trigger] a[k].0, key) && a[k].1 == rid;
    assert((a + b)[k] == a[k]);
}

proof fn lemma_contain_right(a: Seq<EntryModel>, b: Seq<EntryModel>, key: Seq<u8>, rid: int)
    requires
        spec_entries_contain(b, key, rid),
    ensures
        spec_entries_contain(a + b, key, rid),
{
    let k = choose|k: int|
        0 <= k < b.len() && spec_key_eq(#[trigger] b[k].0, key) && b[k].1 == rid;
    assert((a + b)[a.len() + k] == b[k]);
}

proof fn lemma_first_key_match_props(cells: Seq<CellModel>, key: Seq<u8>, last: int, i: int)
    requires
        0 <= i,
    ensures
        spec_first_key_match(cells, key, last, i) matches Some(k) ==> i <= k < cells.len()
            && (spec_index_payload(cells[k]) matches Some((kv, rid)) && spec_key_eq(kv, key)
            && rid > last),
    decreases cells.len() - i,
{
    if i < cells.len() {
        lemma_first_key_match_props(cells, key, last, i + 1);
    }
}

proof fn lemma_first_key_ge_props(cells: Seq<CellModel>, key: Seq<u8>, i: int)
    requires
        0 <= i,
    ensures
        spec_first_key_ge(cells, key, i) matches Some(k) ==> i <= k < cells.len() && (
        spec_index_payload(cells[k]) matches Some((kv, _)) && spec_key_ge(kv, key)),
    decreases cells.len() - i,
{
    if i < cells.len() {
        lemma_first_key_ge_props(cells, key, i + 1);
    }
}

/// A leaf cell's own entry sits among the leaf's entries.
proof fn lemma_leaf_entry_member(cells: Seq<CellModel>, key: Seq<u8>, j: int, i: int)
    requires
        0 <= j <= i < cells.len(),
        spec_index_payload(cells[i]) matches Some((kv, _)) && spec_key_eq(kv, key),
    ensures
        spec_entries_contain(
            spec_leaf_entries(cells, j),
            key,
            (spec_index_payload(cells[i])->0).1,
        ),
    decreases i - j,
{
    let e = spec_index_payload(cells[i])->0;
    if j == i {
        assert(spec_leaf_entries(cells, j)[0] == e);
    } else {
        lemma_leaf_entry_member(cells, key, j + 1, i);
        match spec_index_payload(cells[j]) {
            Some(e2) => {
                lemma_contain_right(seq![e2], spec_leaf_entries(cells, j + 1), key, e.1);
            },
            None => {
                lemma_contain_right(
                    Seq::<EntryModel>::empty(),
                    spec_leaf_entries(cells, j + 1),
                    key,
                    e.1,
                );
            },
        }
    }
}

/// Whatever holds of the entries under `cells[i]`'s child, or of the
/// cell's own pair, holds among the entries under `cells[j..]`.
proof fn lemma_children_entry_member(
    file: Seq<u8>,
    cells: Seq<CellModel>,
    key: Seq<u8>,
    j: int,
    i: int,
    fuel: nat,
    rid: int,
)
    requires
        0 <= j <= i < cells.len(),
        spec_entries_contain(spec_index_entries(file, spec_left_of(cells[i]), fuel), key, rid) || (
        spec_index_payload(cells[i]) matches Some((kv, r2)) && spec_key_eq(kv, key) && r2 == rid),
    ensures
        spec_entries_contain(spec_children_entries(file, cells, j, fuel), key, rid),
    decreases i - j,
{
    if j == i {
        let a = spec_index_entries(file, spec_left_of(cells[i]), fuel);
        let own: Seq<EntryModel> = match spec_index_payload(cells[i]) {
            Some(e) => seq![e],
            None => Seq::empty(),
        };
        let rest = spec_children_entries(file, cells, i + 1, fuel);
        if spec_entries_contain(a, key, rid) {
            lemma_contain_left(a, own, key, rid);
            lemma_contain_left(a + own, rest, key, rid);
        } else {
            let e = spec_index_payload(cells[i])->0;
            assert(own[0] == e);
            lemma_contain_right(a, own, key, rid);
            lemma_contain_left(a + own, rest, key, rid);
        }
        assert(spec_children_entries(file, cells, j, fuel) == a + own + rest);
    } else {
        lemma_children_entry_member(file, cells, key, j + 1, i, fuel, rid);
        let a = spec_index_entries(file, spec_left_of(cells[j]), fuel);
        let own: Seq<EntryModel> = match spec_index_payload(cells[j]) {
            Some(e) => seq![e],
            None => Seq::empty(),
        };
        let rest = spec_children_entries(file, cells, j + 1, fuel);
        lemma_contain_right(a + own, rest, key, rid);
        assert(spec_children_entries(file, cells, j, fuel) == a + own + rest);
    }
}

/// Soundness of one full descent: a rowid it answers is paired with an
/// exactly equal key somewhere in the subtree — unless it is the
/// fallback the descent was handed in.
proof fn lemma_index_descend_sound(
    file: Seq<u8>,
    num: int,
    last: int,
    key: Seq<u8>,
    m: Option<int>,
    fuel: nat,
)
    requires
        spec_index_descend(file, num, last, key, m, fuel) matches Ok(o) && o is Some,
    ensures
        ({
            let rid = spec_index_descend(file, num, last, key, m, fuel)->Ok_0->0;
            spec_entries_contain(spec_index_entries(file, num, fuel), key, rid) || m == Some(rid)
        }),
    decreases fuel,
{
    let rid = spec_index_descend(file, num, last, key, m, fuel)->Ok_0->0;
    let s = crate::db::spec_page_bytes(file, num);
    let hoff = crate::db::spec_header_offset(num);
    let h = spec_page_header(s, hoff)->Ok_0;
    let cells = spec_cells(s, hoff)->Ok_0;
    match spec_index_step(s, hoff, last, key) {
        Err(_) => {},
        Ok(IndexStepModel::RowId(opt)) => {
            match opt {
                Some(r) => {
                    // a leaf hit: the matching cell's entry is on this page
                    lemma_first_key_match_props(cells, key, last, 0);
                    let k = spec_first_key_match(cells, key, last, 0)->0;
                    lemma_leaf_entry_member(cells, key, 0, k);
                },
                None => {
                    assert(m == Some(rid));
                },
            }
        },
        Ok(IndexStepModel::PointerOrRowId(p, m2)) => {
            let f2 = (fuel - 1) as nat;
            lemma_index_descend_sound(file, p, last, key, m2, f2);
            let a = spec_children_entries(file, cells, 0, f2);
            let b: Seq<EntryModel> = match h.right_most_pointer {
                Some(rp) => spec_index_entries(file, rp as int, f2),
                None => Seq::empty(),
            };
            assert(spec_index_entries(file, num, fuel) == a + b);
            lemma_first_key_ge_props(cells, key, 0);
            match spec_first_key_ge(cells, key, 0) {
                Some(i) => {
                    assert(p == spec_left_of(cells[i]));
                    if spec_entries_contain(spec_index_entries(file, p, f2), key, rid) {
                        lemma_children_entry_member(file, cells, key, 0, i, f2, rid);
                        lemma_contain_left(a, b, key, rid);
                    } else if m2 == Some(rid) {
                        // the fallback is the equal-key pair of cell `i`
                        let (kv, r2) = spec_index_payload(cells[i])->0;
                        assert(spec_key_eq(kv, key) && r2 == rid);
                        lemma_children_entry_member(file, cells, key, 0, i, f2, rid);
                        lemma_contain_left(a, b, key, rid);
                    } else {
                        assert(m == Some(rid));
                    }
                },
                None => {
                    // the right-most descent carried the fallback through
                    if spec_entries_contain(spec_index_entries(file, p, f2), key, rid) {
                        lemma_contain_right(a, b, key, rid);
                    } else {
                        assert(m2 == Some(rid) || m == Some(rid));
                        assert(m2 is None);
                        assert(m == Some(rid));
                    }
                },
            }
        },
    }
}

/// Every rowid an index probe yields for `key` is paired with an exactly
/// equal key among the index's entries: the probe never invents a row.
pub proof fn lemma_index_probe_sound(file: Seq<u8>, root: int, last: int, key: Seq<u8>, fuel: nat)
    requires
        spec_index_descend(file, root, last, key, None, fuel) matches Ok(o) && o is Some,
    ensures
        spec_entries_contain(
            spec_index_entries(file, root, fuel),
            key,
            spec_index_descend(file, root, last, key, None, fuel)->Ok_0->0,
        ),
{
    lemma_index_descend_sound(file, root, last, key, None, fuel);
}

/// An interior index page none of whose cell keys reaches the target
/// descends through its right-most child, with no fallback.
pub proof fn lemma_no_key_ge_goes_right(s: Seq<u8>, hoff: int, last: int, key: Seq<u8>)
    requires
        spec_page_header(s, hoff) matches Ok(h) && h.kind is InteriorIndex
            && h.right_most_pointer is Some,
        spec_cells(s, hoff) is Ok,
        forall|i: int|
            0 <= i < spec_cells(s, hoff)->Ok_0.len() ==> !(spec_index_payload(
                #[trigger] spec_cells(s, hoff)->Ok_0[i],
            ) matches Some((k, _)) && spec_key_ge(k, key)),
    ensures
        spec_index_step(s, hoff, last, key) == Ok::<IndexStepModel, Error>(
            IndexStepModel::PointerOrRowId(
                spec_page_header(s, hoff)->Ok_0.right_most_pointer->0 as int,
                None,
            ),
        ),
{
    let cells = spec_cells(s, hoff)->Ok_0;
    lemma_first_key_ge_none(cells, key, 0);
}

proof fn lemma_first_key_ge_none(cells: Seq<CellModel>, key: Seq<u8>, i: int)
    requires
        0 <= i,
        forall|j: int|
            0 <= j < cells.len() ==> !(spec_index_payload(#[trigger] cells[j]) matches Some(
                (k, _),
            ) && spec_key_ge(k, key)),
    ensures
        spec_first_key_ge(cells, key, i) is None,
    decreases cells.len() - i,
{
    if i < cells.len() {
        lemma_first_key_ge_none(cells, key, i + 1);
    }
}

} // verus!