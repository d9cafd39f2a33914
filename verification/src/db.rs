//! The database object: the file's bytes, the file header, and page
//! access.
//!
//! The engine works over an in-memory copy of the database file — any
//! byte-addressable blob.  A caller reads the file at the edge and hands
//! the bytes in; every page is then a fixed-size slice of them.

use vstd::prelude::*;
use crate::error::Error;
use crate::page::{Page, PageBuffer, PageNum};
use crate::utils::{be_u16, be_uint, read_n_bytes};

verus! {

/// The database file header occupies the first 100 bytes of the file.
pub const FILE_HEADER_SIZE: usize = 100;

/// The page size held by the file header: a 16-bit big-endian integer at
/// offset 16.
pub open spec fn spec_page_size(file: Seq<u8>) -> int {
    be_uint(file, 16, 2)
}

/// The bytes of page `num` (1-based): the `num`-th `page_size` block of the
/// file.
pub open spec fn spec_page_bytes(file: Seq<u8>, num: int) -> Seq<u8> {
    file.subrange((num - 1) * spec_page_size(file), num * spec_page_size(file))
}

/// True when page `num` exists: the number is at least 1, the file header
/// is whole, and the page lies inside the file.
pub open spec fn spec_page_in_file(file: Seq<u8>, num: int) -> bool {
    &&& num >= 1
    &&& file.len() >= FILE_HEADER_SIZE
    &&& num * spec_page_size(file) <= file.len()
}

/// Page 1 embeds the file header, so its page header sits at offset 100;
/// every other page's sits at 0.
pub open spec fn spec_header_offset(num: int) -> int {
    if num == 1 {
        100
    } else {
        0
    }
}

/// The first 100 bytes of the file.
#[derive(Debug, Clone)]
pub struct FileHeader(pub Vec<u8>);

impl View for FileHeader {
    type V = Seq<u8>;

    open spec fn view(&self) -> Seq<u8> {
        self.0@
    }
}

impl FileHeader {
    /// Wraps the header bytes; exactly the first 100 bytes of the file.
    pub fn new(buf: Vec<u8>) -> (r: FileHeader)
        requires
            buf@.len() == FILE_HEADER_SIZE,
        ensures
            r@ == buf@,
    {
        FileHeader(buf)
    }

    /// The database page size, big-endian at offset 16.
    pub fn page_size(&self) -> (r: u16)
        requires
            self@.len() == FILE_HEADER_SIZE,
        ensures
            r == be_uint(self@, 16, 2),
    {
        match be_u16(self.0.as_slice(), 16) {
            Ok(v) => v,
            Err(_) => 0,
        }
    }
}

/// A read-only database: the file's bytes.  Pages are decoded on demand;
/// nothing is ever written back.
#[derive(Debug)]
pub struct Db {
    pub data: Vec<u8>,
}

impl View for Db {
    type V = Seq<u8>;

    open spec fn view(&self) -> Seq<u8> {
        self.data@
    }
}

impl Db {
    /// Opens a database over the file's bytes.
    pub fn new(data: Vec<u8>) -> (r: Db)
        ensures
            r@ == data@,
    {
        Db { data }
    }

    /// The file header: the first 100 bytes.  Fails exactly when the file
    /// is shorter than that.
    pub fn file_header(&self) -> (r: Result<FileHeader, Error>)
        ensures
            self@.len() >= FILE_HEADER_SIZE ==> (r matches Ok(h) && h@ == self@.subrange(
                0,
                FILE_HEADER_SIZE as int,
            )),
            self@.len() < FILE_HEADER_SIZE ==> r == Err::<FileHeader, Error>(
                Error::UnexpectedEof,
            ),
    {
        match read_n_bytes(self.data.as_slice(), 0, FILE_HEADER_SIZE) {
            Ok(buf) => Ok(FileHeader::new(buf)),
            Err(e) => Err(e),
        }
    }

    /// The view over page `num`.  Page numbers are 1-based: 0 is rejected;
    /// a number past the end of the file is rejected; page 1's header
    /// offset is 100, every other page's 0.
    pub fn page(&self, num: PageNum) -> (r: Result<Page, Error>)
        ensures
            match r {
                Ok(p) => spec_page_in_file(self@, num as int) && p.buf@ == spec_page_bytes(
                    self@,
                    num as int,
                ) && p.header_offset as int == spec_header_offset(num as int),
                Err(e) => !spec_page_in_file(self@, num as int) && (if num == 0 {
                    e == Error::PageNumberZero
                } else if self@.len() < FILE_HEADER_SIZE {
                    e == Error::UnexpectedEof
                } else {
                    e == Error::PageOutOfRange
                }),
            },
    {
        if num == 0 {
            return Err(Error::PageNumberZero);
        }
        let header = match self.file_header() {
            Ok(h) => h,
            Err(e) => {
                return Err(e);
            },
        };
        let ps = header.page_size() as u64;
        proof {
            // the page size read from the header equals the one read from
            // the file: both read bytes 16 and 17
            assert(be_uint(header@, 16, 2) == be_uint(self@, 16, 2)) by {
                assert(forall|i: int|
                    0 <= i < FILE_HEADER_SIZE ==> header@[i] == #[trigger] self@[i]);
                lemma_be16_agrees(header@, self@, 16);
            }
        }
        proof {
            assert(num as int * ps as int <= 0xffff_ffff * 0xffff) by (nonlinear_arith)
                requires num <= 0xffff_ffffu32, ps <= 0xffffu64,
            ;
        }
        let end = (num as u64) * ps;
        if end > self.data.len() as u64 {
            return Err(Error::PageOutOfRange);
        }
        proof {
            assert((num - 1) as int * ps as int + ps as int == num as int * ps as int)
                by (nonlinear_arith)
                requires num >= 1u32,
            ;
            assert((num - 1) as int * ps as int >= 0) by (nonlinear_arith)
                requires num >= 1u32, ps >= 0u64,
            ;
        }
        let offset = ((num - 1) as u64) * ps;
        let buf = match read_n_bytes(self.data.as_slice(), offset as usize, ps as usize) {
            Ok(b) => b,
            Err(_) => {
                return Err(Error::PageOutOfRange);
            },
        };
        let header_offset: usize = if num == 1 {
            100
        } else {
            0
        };
        Ok(Page::builder().header_offset(header_offset).buffer(PageBuffer(buf)).build())
    }

    /// The schema page: page 1.
    pub fn schema_page(&self) -> (r: Result<Page, Error>)
        ensures
            match r {
                Ok(p) => spec_page_in_file(self@, 1) && p.buf@ == spec_page_bytes(self@, 1)
                    && p.header_offset == 100,
                Err(_) => !spec_page_in_file(self@, 1),
            },
    {
        self.page(1)
    }
}

proof fn lemma_be16_agrees(a: Seq<u8>, b: Seq<u8>, pos: int)
    requires
        0 <= pos,
        pos + 2 <= a.len(),
        pos + 2 <= b.len(),
        a[pos] == b[pos],
        a[pos + 1] == b[pos + 1],
    ensures
        be_uint(a, pos, 2) == be_uint(b, pos, 2),
{
    reveal_with_fuel(be_uint, 5);
}

} // verus!
