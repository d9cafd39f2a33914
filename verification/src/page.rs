//! B-tree pages: the page header and the cell-pointer array.
//!
//! A page is a fixed-size block of the database file.  Its header starts at
//! `header_offset` (100 on page 1, where the file header sits first, 0
//! elsewhere) and names the page type and the number of cells; each cell is
//! reached through a 16-bit pointer in the array that follows the header.

use vstd::prelude::*;
use crate::cell::{spec_cell_decode, Cell, CellModel};
use crate::error::Error;
use crate::utils::{be_u16, be_u32, be_uint, read_1_byte};

verus! {

/// A 1-based page number.
pub type PageNum = u32;

/// The four B-tree page kinds.
#[derive(Debug, Clone, Copy, PartialEq, Eq, Structural)]
pub enum PageType {
    InteriorIndex,
    InteriorTable,
    LeafIndex,
    LeafTable,
}

/// The page type named by the header's first byte; any byte other than
/// 0x02, 0x05, 0x0a and 0x0d is rejected.
pub open spec fn spec_page_type(b: u8) -> Result<PageType, Error> {
    if b == 0x02 {
        Ok(PageType::InteriorIndex)
    } else if b == 0x05 {
        Ok(PageType::InteriorTable)
    } else if b == 0x0a {
        Ok(PageType::LeafIndex)
    } else if b == 0x0d {
        Ok(PageType::LeafTable)
    } else {
        Err(Error::InvalidPageType(b))
    }
}

/// How many bytes the page header occupies: 8 on a leaf page, 12 on an
/// interior page (which adds the right-most child pointer).
pub open spec fn spec_header_size(t: PageType) -> int {
    if t is LeafIndex || t is LeafTable {
        8
    } else {
        12
    }
}

impl PageType {
    /// The page type named by `byte`, exactly as `spec_page_type` reads it.
    pub fn new(byte: u8) -> (r: Result<PageType, Error>)
        ensures
            r == spec_page_type(byte),
    {
        match byte {
            0x02 => Ok(PageType::InteriorIndex),
            0x05 => Ok(PageType::InteriorTable),
            0x0a => Ok(PageType::LeafIndex),
            0x0d => Ok(PageType::LeafTable),
            _ => Err(Error::InvalidPageType(byte)),
        }
    }

    /// True of the two leaf kinds.
    pub fn is_leaf(&self) -> (r: bool)
        ensures
            r == (*self is LeafIndex || *self is LeafTable),
    {
        match self {
            PageType::LeafIndex | PageType::LeafTable => true,
            _ => false,
        }
    }

    /// The page header's size for this kind.
    pub fn header_size(&self) -> (r: usize)
        ensures
            r == spec_header_size(*self),
    {
        if self.is_leaf() {
            8
        } else {
            12
        }
    }
}

/// A decoded page header.
#[derive(Debug, Clone, Copy)]
pub struct PageHeader {
    pub kind: PageType,
    pub free_block_starts_at: u16,
    pub num_of_cells: u16,
    pub cells_start_at: u16,
    pub num_of_fragmented_free_bytes: u8,
    /// The right-most child pointer; present exactly on interior pages.
    pub right_most_pointer: Option<PageNum>,
}

/// The header of the page held by `s`, read at `hoff`.
pub open spec fn spec_page_header(s: Seq<u8>, hoff: int) -> Result<PageHeader, Error> {
    if hoff < 0 || hoff + 1 > s.len() {
        Err(Error::UnexpectedEof)
    } else {
        match spec_page_type(s[hoff]) {
            Err(e) => Err(e),
            Ok(t) => {
                if hoff + spec_header_size(t) > s.len() {
                    Err(Error::UnexpectedEof)
                } else {
                    Ok(
                        PageHeader {
                            kind: t,
                            free_block_starts_at: be_uint(s, hoff + 1, 2) as u16,
                            num_of_cells: be_uint(s, hoff + 3, 2) as u16,
                            cells_start_at: be_uint(s, hoff + 5, 2) as u16,
                            num_of_fragmented_free_bytes: s[hoff + 7],
                            right_most_pointer: if t is LeafIndex || t is LeafTable {
                                None
                            } else {
                                Some(be_uint(s, hoff + 8, 4) as u32)
                            },
                        },
                    )
                }
            },
        }
    }
}

/// The cells of the page held by `s` with header at `hoff`, from index `i`
/// up to `n`, each reached through its 16-bit cell pointer.
pub open spec fn spec_cells_from(s: Seq<u8>, hoff: int, t: PageType, n: int, i: int) -> Result<
    Seq<CellModel>,
    Error,
>
    decreases n - i,
{
    if i >= n {
        Ok(Seq::empty())
    } else {
        let parr = hoff + spec_header_size(t);
        if parr + 2 * i + 2 > s.len() {
            Err(Error::UnexpectedEof)
        } else {
            let p = be_uint(s, parr + 2 * i, 2);
            match spec_cell_decode(t, s, p) {
                Err(e) => Err(e),
                Ok(c) => match spec_cells_from(s, hoff, t, n, i + 1) {
                    Err(e) => Err(e),
                    Ok(rest) => Ok(seq![c] + rest),
                },
            }
        }
    }
}

/// True when cell `c` is of the variant that page type `t` decodes.
pub open spec fn spec_cell_matches(t: PageType, c: CellModel) -> bool {
    match t {
        PageType::InteriorIndex => c is InteriorIndex,
        PageType::InteriorTable => c is InteriorTable,
        PageType::LeafIndex => c is LeafIndex,
        PageType::LeafTable => c is LeafTable,
    }
}

/// Every cell a page decodes is of the variant its page type names.
pub proof fn lemma_cells_match(s: Seq<u8>, hoff: int, t: PageType, n: int, i: int)
    requires
        spec_cells_from(s, hoff, t, n, i) is Ok,
    ensures
        forall|j: int|
            0 <= j < spec_cells_from(s, hoff, t, n, i)->Ok_0.len()
                ==> #[trigger] spec_cell_matches(t, spec_cells_from(s, hoff, t, n, i)->Ok_0[j]),
    decreases n - i,
{
    if i < n {
        lemma_cells_match(s, hoff, t, n, i + 1);
    }
}

/// All cells of the page held by `s` with header at `hoff`.
pub open spec fn spec_cells(s: Seq<u8>, hoff: int) -> Result<Seq<CellModel>, Error> {
    match spec_page_header(s, hoff) {
        Err(e) => Err(e),
        Ok(h) => spec_cells_from(s, hoff, h.kind, h.num_of_cells as int, 0),
    }
}

/// A page's bytes; immutable once read from the file.
#[derive(Debug, Clone)]
pub struct PageBuffer(pub Vec<u8>);

impl View for PageBuffer {
    type V = Seq<u8>;

    open spec fn view(&self) -> Seq<u8> {
        self.0@
    }
}

/// Builds a `Page` from its buffer and the offset of its header.
#[derive(Debug)]
pub struct PageBuilder {
    pub header_offset: usize,
    pub buf: Option<PageBuffer>,
}

impl PageBuilder {
    /// Sets the header offset: 100 on page 1, 0 elsewhere.
    pub fn header_offset(self, offset: usize) -> (r: PageBuilder)
        ensures
            r.header_offset == offset,
            r.buf == self.buf,
    {
        PageBuilder { header_offset: offset, buf: self.buf }
    }

    /// Sets the page's bytes.
    pub fn buffer(self, buf: PageBuffer) -> (r: PageBuilder)
        ensures
            r.header_offset == self.header_offset,
            r.buf == Some(buf),
    {
        PageBuilder { header_offset: self.header_offset, buf: Some(buf) }
    }

    /// Builds the page.  A buffer must have been set.
    pub fn build(self) -> (r: Page)
        requires
            self.buf is Some,
        ensures
            r.header_offset == self.header_offset,
            r.buf@ == self.buf->0@,
    {
        match self.buf {
            Some(buf) => Page { header_offset: self.header_offset, buf },
            None => Page { header_offset: 0, buf: PageBuffer(Vec::new()) },
        }
    }
}

/// A decoder over one page's bytes.
#[derive(Debug)]
pub struct Page {
    pub header_offset: usize,
    pub buf: PageBuffer,
}

impl Page {
    /// A fresh builder with header offset 0 and no buffer.
    pub fn builder() -> (r: PageBuilder)
        ensures
            r.header_offset == 0,
            r.buf is None,
    {
        PageBuilder { header_offset: 0, buf: None }
    }

    /// The page's decoded header, exactly as `spec_page_header` reads it.
    pub fn header(&self) -> (r: Result<PageHeader, Error>)
        ensures
            r == spec_page_header(self.buf@, self.header_offset as int),
    {
        let s = self.buf.0.as_slice();
        let hoff = self.header_offset;
        let tb = match read_1_byte(s, hoff) {
            Ok(b) => b,
            Err(e) => {
                return Err(e);
            },
        };
        let t = match PageType::new(tb) {
            Ok(t) => t,
            Err(e) => {
                return Err(e);
            },
        };
        let hs = t.header_size();
        if s.len() < hs || hoff > s.len() - hs {
            return Err(Error::UnexpectedEof);
        }
        let free_block_starts_at = match be_u16(s, hoff + 1) {
            Ok(v) => v,
            Err(_) => {
                return Err(Error::UnexpectedEof);
            },
        };
        let num_of_cells = match be_u16(s, hoff + 3) {
            Ok(v) => v,
            Err(_) => {
                return Err(Error::UnexpectedEof);
            },
        };
        let cells_start_at = match be_u16(s, hoff + 5) {
            Ok(v) => v,
            Err(_) => {
                return Err(Error::UnexpectedEof);
            },
        };
        let frag = match read_1_byte(s, hoff + 7) {
            Ok(v) => v,
            Err(_) => {
                return Err(Error::UnexpectedEof);
            },
        };
        let right_most_pointer = if t.is_leaf() {
            None
        } else {
            match be_u32(s, hoff + 8) {
                Ok(v) => Some(v),
                Err(_) => {
                    return Err(Error::UnexpectedEof);
                },
            }
        };
        Ok(
            PageHeader {
                kind: t,
                free_block_starts_at,
                num_of_cells,
                cells_start_at,
                num_of_fragmented_free_bytes: frag,
                right_most_pointer,
            },
        )
    }

    /// How many cells the page holds.
    pub fn num_cells(&self) -> (r: Result<usize, Error>)
        ensures
            match r {
                Ok(n) => spec_page_header(self.buf@, self.header_offset as int) matches Ok(h)
                    && n == h.num_of_cells,
                Err(e) => spec_page_header(self.buf@, self.header_offset as int) == Err::<
                    PageHeader,
                    Error,
                >(e),
            },
    {
        match self.header() {
            Ok(h) => Ok(h.num_of_cells as usize),
            Err(e) => Err(e),
        }
    }

    /// The cell at index `i`, reached through the cell-pointer array.
    pub fn cell_at(&self, t: PageType, i: usize) -> (r: Result<Cell, Error>)
        requires
            spec_page_header(self.buf@, self.header_offset as int) matches Ok(h) && h.kind == t
                && i < h.num_of_cells,
        ensures
            ({
                let s = self.buf@;
                let hoff = self.header_offset as int;
                let parr = hoff + spec_header_size(t);
                match r {
                    Ok(c) => parr + 2 * i + 2 <= s.len() && (spec_cell_decode(
                        t,
                        s,
                        be_uint(s, parr + 2 * i, 2),
                    ) matches Ok(m) && c@ == m),
                    Err(e) => (parr + 2 * i + 2 > s.len() && e == Error::UnexpectedEof) || (parr + 2
                        * i + 2 <= s.len() && spec_cell_decode(
                        t,
                        s,
                        be_uint(s, parr + 2 * i, 2),
                    ) == Err::<CellModel, Error>(e)),
                }
            }),
    {
        let s = self.buf.0.as_slice();
        let hoff = self.header_offset;
        let hs = t.header_size();
        let limit = s.len();
        if limit < 2 * i + 2 || hoff + hs > limit - (2 * i + 2) {
            return Err(Error::UnexpectedEof);
        }
        let p = match be_u16(s, hoff + hs + 2 * i) {
            Ok(p) => p,
            Err(_) => {
                return Err(Error::UnexpectedEof);
            },
        };
        Cell::new(t, s, p as usize)
    }

    /// Every cell of the page, in cell-pointer order, exactly as
    /// `spec_cells` reads them.
    pub fn cells(&self) -> (r: Result<Vec<Cell>, Error>)
        ensures
            match r {
                Ok(cs) => spec_cells(self.buf@, self.header_offset as int) matches Ok(ms)
                    && cs@.len() == ms.len() && (forall|i: int|
                    0 <= i < ms.len() ==> #[trigger] cs@[i]@ == ms[i]),
                Err(e) => spec_cells(self.buf@, self.header_offset as int) == Err::<
                    Seq<CellModel>,
                    Error,
                >(e),
            },
    {
        let ghost s = self.buf@;
        let ghost hoff = self.header_offset as int;
        let h = match self.header() {
            Ok(h) => h,
            Err(e) => {
                return Err(e);
            },
        };
        let t = h.kind;
        let n = h.num_of_cells as usize;
        let mut cells: Vec<Cell> = Vec::new();
        let mut i: usize = 0;
        while i < n
            invariant
                i <= n,
                cells@.len() == i,
                s == self.buf@,
                hoff == self.header_offset as int,
                spec_page_header(s, hoff) matches Ok(hh) && hh.kind == t && hh.num_of_cells == n,
                match spec_cells_from(s, hoff, t, n as int, i as int) {
                    Ok(rest) => spec_cells_from(s, hoff, t, n as int, 0) matches Ok(all)
                        && all.len() == i + rest.len() && (forall|j: int|
                        0 <= j < i ==> #[trigger] all[j] == cells@[j]@) && (forall|j: int|
                        i <= j < all.len() ==> #[trigger] all[j] == rest[j - i]),
                    Err(e) => spec_cells_from(s, hoff, t, n as int, 0) == Err::<
                        Seq<CellModel>,
                        Error,
                    >(e),
                },
            decreases n - i,
        {
            let c = match self.cell_at(t, i) {
                Ok(c) => c,
                Err(e) => {
                    proof {
                        let parr = hoff + spec_header_size(t);
                        assert(spec_cells_from(s, hoff, t, n as int, i as int) == Err::<
                            Seq<CellModel>,
                            Error,
                        >(e));
                    }
                    return Err(e);
                },
            };
            proof {
                let parr = hoff + spec_header_size(t);
                match spec_cells_from(s, hoff, t, n as int, i + 1) {
                    Ok(rest2) => {
                        assert(spec_cells_from(s, hoff, t, n as int, i as int)
                            == Ok::<Seq<CellModel>, Error>(seq![c@] + rest2));
                    },
                    Err(_) => {},
                }
            }
            cells.push(c);
            i = i + 1;
        }
        assert(spec_cells_from(s, hoff, t, n as int, n as int) == Ok::<Seq<CellModel>, Error>(
            Seq::empty(),
        ));
        Ok(cells)
    }
}

} // verus!
