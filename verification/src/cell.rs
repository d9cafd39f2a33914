//! Records, serial types, column values and B-tree cells.
//!
//! A record is a header of varints — the inclusive header size, then one
//! serial-type code per column — followed by each column's body bytes.  The
//! spec-level decoder in this module is the reference meaning of every byte
//! of a record; the executable decoder is proved to agree with it exactly,
//! including on which inputs each error arises.

use vstd::prelude::*;
use vstd::utf8::valid_utf8;
use crate::error::Error;
use crate::text::is_valid_utf8;
use crate::utils::{
    be_read, be_uint, lemma_be_uint_subrange, read_n_bytes, signed_from_be, twos_complement,
};
use crate::varint::{lemma_varint_decode_len, varint_decode, Varint};

verus! {

/// A table row's 64-bit key.
pub type RowId = u64;

/// The on-disk encoding of one column value, as named by the record header.
#[derive(Debug, Clone, Copy, PartialEq, Eq, Structural)]
pub enum SerialType {
    Null,
    TwosComplement8,
    TwosComplement16,
    TwosComplement24,
    TwosComplement32,
    TwosComplement48,
    TwosComplement64,
    Float,
    Zero,
    One,
    Blob(u64),
    Text(u64),
}

/// The serial type named by the header code `num`; codes 10 and 11 have no
/// meaning.
pub open spec fn spec_serial_type(num: int) -> Result<SerialType, Error> {
    if num == 0 {
        Ok(SerialType::Null)
    } else if num == 1 {
        Ok(SerialType::TwosComplement8)
    } else if num == 2 {
        Ok(SerialType::TwosComplement16)
    } else if num == 3 {
        Ok(SerialType::TwosComplement24)
    } else if num == 4 {
        Ok(SerialType::TwosComplement32)
    } else if num == 5 {
        Ok(SerialType::TwosComplement48)
    } else if num == 6 {
        Ok(SerialType::TwosComplement64)
    } else if num == 7 {
        Ok(SerialType::Float)
    } else if num == 8 {
        Ok(SerialType::Zero)
    } else if num == 9 {
        Ok(SerialType::One)
    } else if num >= 12 && num % 2 == 0 {
        Ok(SerialType::Blob(((num - 12) / 2) as u64))
    } else if num >= 13 && num % 2 == 1 {
        Ok(SerialType::Text(((num - 13) / 2) as u64))
    } else {
        Err(Error::InvalidSerialType(num as u64))
    }
}

/// How many body bytes a value of serial type `t` occupies.
pub open spec fn spec_body_len(t: SerialType) -> int {
    match t {
        SerialType::Null => 0,
        SerialType::TwosComplement8 => 1,
        SerialType::TwosComplement16 => 2,
        SerialType::TwosComplement24 => 3,
        SerialType::TwosComplement32 => 4,
        SerialType::TwosComplement48 => 6,
        SerialType::TwosComplement64 => 8,
        SerialType::Float => 8,
        SerialType::Zero => 0,
        SerialType::One => 0,
        SerialType::Blob(n) => n as int,
        SerialType::Text(n) => n as int,
    }
}

impl SerialType {
    /// The serial type named by the header code `num`.  Codes 10 and 11 are
    /// reserved and rejected; every other 64-bit code has a meaning.
    pub fn new(num: u64) -> (r: Result<SerialType, Error>)
        ensures
            r == spec_serial_type(num as int),
    {
        match num {
            0 => Ok(SerialType::Null),
            1 => Ok(SerialType::TwosComplement8),
            2 => Ok(SerialType::TwosComplement16),
            3 => Ok(SerialType::TwosComplement24),
            4 => Ok(SerialType::TwosComplement32),
            5 => Ok(SerialType::TwosComplement48),
            6 => Ok(SerialType::TwosComplement64),
            7 => Ok(SerialType::Float),
            8 => Ok(SerialType::Zero),
            9 => Ok(SerialType::One),
            _ => {
                if num >= 12 && num % 2 == 0 {
                    Ok(SerialType::Blob((num - 12) / 2))
                } else if num >= 13 {
                    Ok(SerialType::Text((num - 13) / 2))
                } else {
                    Err(Error::InvalidSerialType(num))
                }
            },
        }
    }

    /// How many body bytes a value of this serial type occupies.
    pub fn body_len(&self) -> (r: u64)
        ensures
            r == spec_body_len(*self),
    {
        match self {
            SerialType::Null => 0,
            SerialType::TwosComplement8 => 1,
            SerialType::TwosComplement16 => 2,
            SerialType::TwosComplement24 => 3,
            SerialType::TwosComplement32 => 4,
            SerialType::TwosComplement48 => 6,
            SerialType::TwosComplement64 => 8,
            SerialType::Float => 8,
            SerialType::Zero => 0,
            SerialType::One => 0,
            SerialType::Blob(n) => *n,
            SerialType::Text(n) => *n,
        }
    }
}

/// The mathematical reading of one column value.
pub enum ValueModel {
    /// The rowid, substituted for an `INTEGER PRIMARY KEY` column.
    PrimaryKey(int),
    Null,
    Int(int),
    /// An IEEE-754 double, kept as its raw big-endian 64-bit pattern.
    Float(int),
    Blob(Seq<u8>),
    /// UTF-8 bytes.
    Text(Seq<u8>),
}

/// One decoded column value.  Text is kept as its UTF-8 bytes and a float as
/// its raw 64-bit pattern; a caller renders both at the edge.
#[derive(Debug, Clone, PartialEq)]
pub enum RecordValue {
    /// The rowid, substituted for an `INTEGER PRIMARY KEY` column.
    PrimaryKey(RowId),
    Null,
    Int(i64),
    /// Raw big-endian IEEE-754 bit pattern.
    Float(u64),
    Blob(Vec<u8>),
    /// Valid UTF-8 bytes.
    Text(Vec<u8>),
}

impl View for RecordValue {
    type V = ValueModel;

    open spec fn view(&self) -> ValueModel {
        match self {
            RecordValue::PrimaryKey(n) => ValueModel::PrimaryKey(*n as int),
            RecordValue::Null => ValueModel::Null,
            RecordValue::Int(n) => ValueModel::Int(*n as int),
            RecordValue::Float(bits) => ValueModel::Float(*bits as int),
            RecordValue::Blob(b) => ValueModel::Blob(b@),
            RecordValue::Text(b) => ValueModel::Text(b@),
        }
    }
}

/// An equal copy of a byte vector.
pub fn copy_bytes(v: &Vec<u8>) -> (r: Vec<u8>)
    ensures
        r@ == v@,
{
    let mut out: Vec<u8> = Vec::new();
    let mut i: usize = 0;
    while i < v.len()
        invariant
            i <= v@.len(),
            out@ == v@.subrange(0, i as int),
        decreases v@.len() - i,
    {
        out.push(v[i]);
        assert(out@ =~= v@.subrange(0, i + 1));
        i = i + 1;
    }
    assert(out@ =~= v@);
    out
}

impl RecordValue {
    /// An equal copy of the value.
    pub fn duplicate(&self) -> (r: RecordValue)
        ensures
            r@ == self@,
    {
        match self {
            RecordValue::PrimaryKey(n) => RecordValue::PrimaryKey(*n),
            RecordValue::Null => RecordValue::Null,
            RecordValue::Int(n) => RecordValue::Int(*n),
            RecordValue::Float(b) => RecordValue::Float(*b),
            RecordValue::Blob(b) => RecordValue::Blob(copy_bytes(b)),
            RecordValue::Text(b) => RecordValue::Text(copy_bytes(b)),
        }
    }

    /// True exactly when this value is text equal, byte for byte, to `s`.
    /// Every non-text value compares unequal to every byte string.
    pub fn matches_text(&self, s: &[u8]) -> (r: bool)
        ensures
            r == spec_matches_text(self@, s@),
    {
        match self {
            RecordValue::Text(t) => crate::text::bytes_eq(t.as_slice(), s),
            _ => false,
        }
    }
}

/// The equality the query layer uses between a column value and a literal:
/// text against text, byte for byte; never true for any other variant.
pub open spec fn spec_matches_text(v: ValueModel, s: Seq<u8>) -> bool {
    match v {
        ValueModel::Text(t) => t == s,
        _ => false,
    }
}

/// The value held by `body` (exactly the body bytes) under serial type `t`.
/// The 48-bit integer type is deliberately not implemented and fails with
/// `Unimplemented`; text that is not valid UTF-8 fails with `InvalidUtf8`.
pub open spec fn spec_value(t: SerialType, body: Seq<u8>) -> Result<ValueModel, Error> {
    match t {
        SerialType::Null => Ok(ValueModel::Null),
        SerialType::TwosComplement8 => Ok(ValueModel::Int(twos_complement(1, be_uint(body, 0, 1)))),
        SerialType::TwosComplement16 => Ok(
            ValueModel::Int(twos_complement(2, be_uint(body, 0, 2))),
        ),
        SerialType::TwosComplement24 => Ok(
            ValueModel::Int(twos_complement(3, be_uint(body, 0, 3))),
        ),
        SerialType::TwosComplement32 => Ok(
            ValueModel::Int(twos_complement(4, be_uint(body, 0, 4))),
        ),
        SerialType::TwosComplement48 => Err(Error::Unimplemented),
        SerialType::TwosComplement64 => Ok(
            ValueModel::Int(twos_complement(8, be_uint(body, 0, 8))),
        ),
        SerialType::Float => Ok(ValueModel::Float(be_uint(body, 0, 8))),
        SerialType::Zero => Ok(ValueModel::Int(0)),
        SerialType::One => Ok(ValueModel::Int(1)),
        SerialType::Blob(_) => Ok(ValueModel::Blob(body)),
        SerialType::Text(_) => if valid_utf8(body) {
            Ok(ValueModel::Text(body))
        } else {
            Err(Error::InvalidUtf8)
        },
    }
}

/// The serial types listed by the record header between `pos` and `end`.
/// Fails with `RecordHeaderOverrun` when a varint crosses `end`, with
/// `UnexpectedEof` when the bytes run out, and with `InvalidSerialType` on a
/// reserved code.
pub open spec fn spec_header_types(s: Seq<u8>, pos: int, end: int) -> Result<Seq<SerialType>, Error>
    decreases end - pos,
{
    if pos >= end {
        Ok(Seq::empty())
    } else {
        match varint_decode(s.skip(pos)) {
            None => Err(Error::UnexpectedEof),
            Some((code, len)) => {
                if len <= 0 {
                    Err(Error::UnexpectedEof)
                } else if pos + len > end {
                    Err(Error::RecordHeaderOverrun)
                } else {
                    match spec_serial_type(code) {
                        Err(e) => Err(e),
                        Ok(t) => match spec_header_types(s, pos + len, end) {
                            Err(e) => Err(e),
                            Ok(rest) => Ok(seq![t] + rest),
                        },
                    }
                }
            },
        }
    }
}

/// The values of the bodies laid out from `pos` for the serial types
/// `types`, together with the position just past the last body.
pub open spec fn spec_bodies(s: Seq<u8>, pos: int, types: Seq<SerialType>) -> Result<
    (Seq<ValueModel>, int),
    Error,
>
    decreases types.len(),
{
    if types.len() == 0 {
        Ok((Seq::empty(), pos))
    } else {
        let t = types[0];
        let bl = spec_body_len(t);
        if pos + bl > s.len() {
            Err(Error::UnexpectedEof)
        } else {
            match spec_value(t, s.subrange(pos, pos + bl)) {
                Err(e) => Err(e),
                Ok(v) => match spec_bodies(s, pos + bl, types.drop_first()) {
                    Err(e) => Err(e),
                    Ok((vs, end)) => Ok((seq![v] + vs, end)),
                },
            }
        }
    }
}

/// The full reading of the record held by `s`: its column values and how
/// many bytes of `s` they span.
pub open spec fn spec_record_decode(s: Seq<u8>) -> Result<(Seq<ValueModel>, int), Error> {
    match varint_decode(s) {
        None => Err(Error::UnexpectedEof),
        Some((hsize, hlen)) => match spec_header_types(s, hlen, hsize) {
            Err(e) => Err(e),
            Ok(types) => spec_bodies(s, if hsize >= hlen { hsize } else { hlen }, types),
        },
    }
}

/// The total body length of a list of serial types.
pub open spec fn spec_body_total(types: Seq<SerialType>) -> int
    decreases types.len(),
{
    if types.len() == 0 {
        0
    } else {
        spec_body_len(types[0]) + spec_body_total(types.drop_first())
    }
}

proof fn lemma_bodies_consumed(s: Seq<u8>, pos: int, types: Seq<SerialType>)
    requires
        spec_bodies(s, pos, types) is Ok,
    ensures
        spec_bodies(s, pos, types)->Ok_0.1 == pos + spec_body_total(types),
    decreases types.len(),
{
    if types.len() > 0 {
        lemma_bodies_consumed(s, pos + spec_body_len(types[0]), types.drop_first());
    }
}

/// After a successful record decode, the bytes consumed are exactly the
/// declared header size plus the body length of every column's serial type.
/// (When the declared header size is smaller than its own varint — a
/// degenerate header — the varint's length takes its place.)
pub proof fn lemma_record_consumed(s: Seq<u8>)
    requires
        spec_record_decode(s) is Ok,
    ensures
        ({
            let (hsize, hlen) = varint_decode(s)->Some_0;
            let types = spec_header_types(s, hlen, hsize)->Ok_0;
            spec_record_decode(s)->Ok_0.1 == (if hsize >= hlen {
                hsize
            } else {
                hlen
            }) + spec_body_total(types)
        }),
{
    let (hsize, hlen) = varint_decode(s)->Some_0;
    let types = spec_header_types(s, hlen, hsize)->Ok_0;
    let start = if hsize >= hlen {
        hsize
    } else {
        hlen
    };
    lemma_bodies_consumed(s, start, types);
}

/// The 48-bit integer serial type is deliberately not implemented:
/// whatever body bytes it governs, decoding its value is refused with
/// the typed `Unimplemented` error — a clean failure, never a wrong
/// value.
pub proof fn lemma_forty_eight_bit_unimplemented(body: Seq<u8>)
    ensures
        spec_value(SerialType::TwosComplement48, body) == Err::<ValueModel, Error>(
            Error::Unimplemented,
        ),
{
}

/// A decoded record: its column values in declaration order.
#[derive(Debug, Clone, PartialEq)]
pub struct Record(pub Vec<RecordValue>);

impl View for Record {
    type V = Seq<ValueModel>;

    open spec fn view(&self) -> Seq<ValueModel> {
        Seq::new(self.0@.len(), |i: int| self.0@[i]@)
    }
}

/// The views of a vector of decoded values.
pub open spec fn views_of(vals: Seq<RecordValue>) -> Seq<ValueModel> {
    Seq::new(vals.len(), |i: int| vals[i]@)
}

/// Decodes the body of one value of serial type `t`, laid out at `pos`.
fn decode_value(t: SerialType, s: &[u8], pos: usize, bl: usize) -> (r: Result<RecordValue, Error>)
    requires
        pos + bl <= s@.len(),
        bl == spec_body_len(t),
    ensures
        match r {
            Ok(v) => spec_value(t, s@.subrange(pos as int, pos + bl)) matches Ok(m) && v@ == m,
            Err(e) => spec_value(t, s@.subrange(pos as int, pos + bl)) == Err::<ValueModel, Error>(
                e,
            ),
        },
{
    let ghost body = s@.subrange(pos as int, pos + bl);
    proof {
        if 1 <= bl <= 8 {
            lemma_be_uint_subrange(s@, pos as int, bl as int);
        }
    }
    match t {
        SerialType::Null => Ok(RecordValue::Null),
        SerialType::TwosComplement8 => {
            let raw = be_read(s, pos, 1);
            Ok(RecordValue::Int(signed_from_be(raw, 1)))
        },
        SerialType::TwosComplement16 => {
            let raw = be_read(s, pos, 2);
            Ok(RecordValue::Int(signed_from_be(raw, 2)))
        },
        SerialType::TwosComplement24 => {
            let raw = be_read(s, pos, 3);
            Ok(RecordValue::Int(signed_from_be(raw, 3)))
        },
        SerialType::TwosComplement32 => {
            let raw = be_read(s, pos, 4);
            Ok(RecordValue::Int(signed_from_be(raw, 4)))
        },
        SerialType::TwosComplement48 => Err(Error::Unimplemented),
        SerialType::TwosComplement64 => {
            let raw = be_read(s, pos, 8);
            Ok(RecordValue::Int(signed_from_be(raw, 8)))
        },
        SerialType::Float => {
            let raw = be_read(s, pos, 8);
            Ok(RecordValue::Float(raw))
        },
        SerialType::Zero => Ok(RecordValue::Int(0)),
        SerialType::One => Ok(RecordValue::Int(1)),
        SerialType::Blob(_) => {
            match read_n_bytes(s, pos, bl) {
                Ok(b) => Ok(RecordValue::Blob(b)),
                Err(e) => Err(e),
            }
        },
        SerialType::Text(_) => {
            match read_n_bytes(s, pos, bl) {
                Ok(b) => {
                    if is_valid_utf8(b.as_slice()) {
                        Ok(RecordValue::Text(b))
                    } else {
                        Err(Error::InvalidUtf8)
                    }
                },
                Err(e) => Err(e),
            }
        },
    }
}

impl Record {
    /// Decodes the record that occupies `s` from its first byte, exactly as
    /// `spec_record_decode` reads it.
    pub fn new(s: &[u8]) -> (r: Result<Record, Error>)
        ensures
            match r {
                Ok(rec) => spec_record_decode(s@) matches Ok((vs, _)) && rec@ == vs,
                Err(e) => spec_record_decode(s@) == Err::<(Seq<ValueModel>, int), Error>(e),
            },
    {
        let slen: usize = s.len();
        assert(s@.skip(0) =~= s@);
        let hv = match Varint::new(s, 0) {
            Ok(v) => v,
            Err(e) => {
                return Err(e);
            },
        };
        let hsize: u64 = hv.value;
        let hlen: usize = hv.byte_len;
        proof {
            lemma_varint_decode_len(s@, 0, 0);
        }
        let ghost spec_start: int = if hsize as int >= hlen as int {
            hsize as int
        } else {
            hlen as int
        };

        // the header's serial-type varints
        let mut types: Vec<SerialType> = Vec::new();
        let mut pos: usize = hlen;
        while (pos as u64) < hsize
            invariant
                hlen <= pos <= slen == s@.len(),
                pos as int <= spec_start,
                spec_start == if hsize as int >= hlen as int { hsize as int } else { hlen as int },
                varint_decode(s@) == Some((hsize as int, hlen as int)),
                match spec_header_types(s@, pos as int, hsize as int) {
                    Ok(rest) => spec_header_types(s@, hlen as int, hsize as int)
                        == Ok::<Seq<SerialType>, Error>(types@ + rest),
                    Err(e) => spec_header_types(s@, hlen as int, hsize as int) == Err::<
                        Seq<SerialType>,
                        Error,
                    >(e),
                },
            decreases hsize as int - pos as int,
        {
            let v = match Varint::new(s, pos) {
                Ok(v) => v,
                Err(e) => {
                    assert(spec_header_types(s@, pos as int, hsize as int) == Err::<
                        Seq<SerialType>,
                        Error,
                    >(e));
                    return Err(e);
                },
            };
            proof {
                lemma_varint_decode_len(s@.skip(pos as int), 0, 0);
            }
            if (v.byte_len as u64) > hsize - (pos as u64) {
                assert(spec_header_types(s@, pos as int, hsize as int) == Err::<
                    Seq<SerialType>,
                    Error,
                >(Error::RecordHeaderOverrun));
                return Err(Error::RecordHeaderOverrun);
            }
            let t = match SerialType::new(v.value) {
                Ok(t) => t,
                Err(e) => {
                    assert(spec_header_types(s@, pos as int, hsize as int) == Err::<
                        Seq<SerialType>,
                        Error,
                    >(e));
                    return Err(e);
                },
            };
            proof {
                let next = pos + v.byte_len;
                match spec_header_types(s@, next as int, hsize as int) {
                    Ok(rest2) => {
                        assert(spec_header_types(s@, pos as int, hsize as int) == Ok::<
                            Seq<SerialType>,
                            Error,
                        >(seq![t] + rest2));
                        assert(types@ + (seq![t] + rest2) =~= types@.push(t) + rest2);
                    },
                    Err(_) => {},
                }
            }
            types.push(t);
            pos = pos + v.byte_len;
        }
        // the loop left `pos` at the greater of the header size and the
        // header varint's own length: exactly where the bodies begin
        assert(pos as int == spec_start);
        assert(spec_header_types(s@, pos as int, hsize as int) == Ok::<Seq<SerialType>, Error>(
            Seq::empty(),
        ));
        assert(types@ + Seq::<SerialType>::empty() =~= types@);
        assert(spec_header_types(s@, hlen as int, hsize as int) == Ok::<Seq<SerialType>, Error>(
            types@,
        ));

        // the bodies
        let mut values: Vec<RecordValue> = Vec::new();
        let mut i: usize = 0;
        let mut bpos: usize = pos;
        proof {
            assert(types@.skip(0) =~= types@);
            match spec_bodies(s@, spec_start, types@) {
                Ok((vs, end)) => {
                    assert(views_of(values@) + vs =~= vs);
                },
                Err(_) => {},
            }
        }
        while i < types.len()
            invariant
                i <= types@.len(),
                bpos <= slen == s@.len(),
                values@.len() == i,
                spec_start == if hsize as int >= hlen as int { hsize as int } else { hlen as int },
                match spec_bodies(s@, bpos as int, types@.skip(i as int)) {
                    Ok((vs, end)) => spec_bodies(s@, spec_start, types@) == Ok::<
                        (Seq<ValueModel>, int),
                        Error,
                    >((views_of(values@) + vs, end)),
                    Err(e) => spec_bodies(s@, spec_start, types@) == Err::<
                        (Seq<ValueModel>, int),
                        Error,
                    >(e),
                },
                varint_decode(s@) == Some((hsize as int, hlen as int)),
                spec_header_types(s@, hlen as int, hsize as int) == Ok::<Seq<SerialType>, Error>(
                    types@,
                ),
            decreases types@.len() - i,
        {
            let t = types[i];
            let bl64 = t.body_len();
            assert(types@.skip(i as int)[0] == types@[i as int]);
            let remaining = (s.len() - bpos) as u64;
            if bl64 > remaining {
                assert(spec_bodies(s@, bpos as int, types@.skip(i as int)) == Err::<
                    (Seq<ValueModel>, int),
                    Error,
                >(Error::UnexpectedEof));
                return Err(Error::UnexpectedEof);
            }
            let bl = bl64 as usize;
            let v = match decode_value(t, s, bpos, bl) {
                Ok(v) => v,
                Err(e) => {
                    assert(spec_bodies(s@, bpos as int, types@.skip(i as int)) == Err::<
                        (Seq<ValueModel>, int),
                        Error,
                    >(e));
                    return Err(e);
                },
            };
            proof {
                assert(types@.skip(i as int).drop_first() =~= types@.skip(i + 1));
                match spec_bodies(s@, bpos + bl, types@.skip(i + 1)) {
                    Ok((vs2, end2)) => {
                        assert(spec_bodies(s@, bpos as int, types@.skip(i as int)) == Ok::<
                            (Seq<ValueModel>, int),
                            Error,
                        >((seq![v@] + vs2, end2)));
                        assert(views_of(values@) + (seq![v@] + vs2) =~= views_of(
                            values@.push(v),
                        ) + vs2);
                    },
                    Err(_) => {},
                }
            }
            values.push(v);
            bpos = bpos + bl;
            i = i + 1;
        }
        assert(types@.skip(types@.len() as int) =~= Seq::<SerialType>::empty());
        assert(spec_bodies(s@, bpos as int, types@.skip(i as int)) == Ok::<
            (Seq<ValueModel>, int),
            Error,
        >((Seq::empty(), bpos as int)));
        let r = Record(values);
        proof {
            assert(views_of(r.0@) + Seq::<ValueModel>::empty() =~= views_of(r.0@));
            assert(r@ =~= views_of(r.0@));
        }
        Ok(r)
    }

    /// An equal copy of the record.
    pub fn duplicate(&self) -> (r: Record)
        ensures
            r@ == self@,
    {
        let mut vals: Vec<RecordValue> = Vec::new();
        let mut i: usize = 0;
        while i < self.0.len()
            invariant
                i <= self.0@.len(),
                vals@.len() == i,
                forall|j: int| 0 <= j < i ==> #[trigger] vals@[j]@ == self.0@[j]@,
            decreases self.0@.len() - i,
        {
            vals.push(self.0[i].duplicate());
            i = i + 1;
        }
        let r = Record(vals);
        proof {
            assert(r@ =~= self@);
        }
        r
    }

    /// The value of column `num`, when the record has that many columns.
    pub fn column(&self, num: usize) -> (r: Option<RecordValue>)
        ensures
            num < self@.len() ==> (r matches Some(v) && v@ == self@[num as int]),
            num >= self@.len() ==> r is None,
    {
        if num < self.0.len() {
            Some(self.0[num].duplicate())
        } else {
            None
        }
    }
}

/// The mathematical reading of one cell.
pub enum CellModel {
    InteriorIndex { left: int, payload: Seq<ValueModel> },
    InteriorTable { left: int, rowid: int },
    LeafIndex { payload: Seq<ValueModel> },
    LeafTable { rowid: int, payload: Seq<ValueModel> },
}

/// The cell laid out at `pos` in page `s`, under page type `t`.
/// An interior cell begins with a 4-byte left-child pointer; a payload is a
/// size varint followed by that many record bytes; a table cell carries a
/// rowid varint.
pub open spec fn spec_cell_decode(t: crate::page::PageType, s: Seq<u8>, pos: int) -> Result<
    CellModel,
    Error,
> {
    match t {
        crate::page::PageType::InteriorTable => {
            if pos < 0 || pos + 4 > s.len() {
                Err(Error::UnexpectedEof)
            } else {
                match varint_decode(s.skip(pos + 4)) {
                    None => Err(Error::UnexpectedEof),
                    Some((rowid, _)) => Ok(
                        CellModel::InteriorTable { left: be_uint(s, pos, 4), rowid },
                    ),
                }
            }
        },
        crate::page::PageType::InteriorIndex => {
            if pos < 0 || pos + 4 > s.len() {
                Err(Error::UnexpectedEof)
            } else {
                match varint_decode(s.skip(pos + 4)) {
                    None => Err(Error::UnexpectedEof),
                    Some((size, len)) => {
                        let start = pos + 4 + len;
                        if start + size > s.len() {
                            Err(Error::UnexpectedEof)
                        } else {
                            match spec_record_decode(s.subrange(start, start + size)) {
                                Err(e) => Err(e),
                                Ok((vs, _)) => Ok(
                                    CellModel::InteriorIndex {
                                        left: be_uint(s, pos, 4),
                                        payload: vs,
                                    },
                                ),
                            }
                        }
                    },
                }
            }
        },
        crate::page::PageType::LeafIndex => {
            if pos < 0 || pos > s.len() {
                Err(Error::UnexpectedEof)
            } else {
                match varint_decode(s.skip(pos)) {
                    None => Err(Error::UnexpectedEof),
                    Some((size, len)) => {
                        let start = pos + len;
                        if start + size > s.len() {
                            Err(Error::UnexpectedEof)
                        } else {
                            match spec_record_decode(s.subrange(start, start + size)) {
                                Err(e) => Err(e),
                                Ok((vs, _)) => Ok(CellModel::LeafIndex { payload: vs }),
                            }
                        }
                    },
                }
            }
        },
        crate::page::PageType::LeafTable => {
            if pos < 0 || pos > s.len() {
                Err(Error::UnexpectedEof)
            } else {
                match varint_decode(s.skip(pos)) {
                    None => Err(Error::UnexpectedEof),
                    Some((size, len1)) => {
                        match varint_decode(s.skip(pos + len1)) {
                            None => Err(Error::UnexpectedEof),
                            Some((rowid, len2)) => {
                                let start = pos + len1 + len2;
                                if start + size > s.len() {
                                    Err(Error::UnexpectedEof)
                                } else {
                                    match spec_record_decode(s.subrange(start, start + size)) {
                                        Err(e) => Err(e),
                                        Ok((vs, _)) => Ok(
                                            CellModel::LeafTable { rowid, payload: vs },
                                        ),
                                    }
                                }
                            },
                        }
                    },
                }
            }
        },
    }
}

/// One cell of a B-tree page.
#[derive(Debug)]
pub enum Cell {
    InteriorIndex { left: crate::page::PageNum, payload: Record },
    InteriorTable { left: crate::page::PageNum, rowid: RowId },
    LeafIndex { payload: Record },
    LeafTable { rowid: RowId, payload: Record },
}

impl View for Cell {
    type V = CellModel;

    open spec fn view(&self) -> CellModel {
        match self {
            Cell::InteriorIndex { left, payload } => CellModel::InteriorIndex {
                left: *left as int,
                payload: payload@,
            },
            Cell::InteriorTable { left, rowid } => CellModel::InteriorTable {
                left: *left as int,
                rowid: *rowid as int,
            },
            Cell::LeafIndex { payload } => CellModel::LeafIndex { payload: payload@ },
            Cell::LeafTable { rowid, payload } => CellModel::LeafTable {
                rowid: *rowid as int,
                payload: payload@,
            },
        }
    }
}

/// Reads the payload (a size varint, then that many record bytes) laid out
/// at `pos`, returning the decoded record and the spec-level size and
/// varint length it spanned.
fn read_payload(s: &[u8], pos: usize) -> (r: Result<Record, Error>)
    requires
        pos <= s@.len(),
    ensures
        match varint_decode(s@.skip(pos as int)) {
            None => r == Err::<Record, Error>(Error::UnexpectedEof),
            Some((size, len)) => {
                let start = pos + len;
                if start + size > s@.len() {
                    r == Err::<Record, Error>(Error::UnexpectedEof)
                } else {
                    match spec_record_decode(s@.subrange(start, start + size)) {
                        Err(e) => r == Err::<Record, Error>(e),
                        Ok((vs, _)) => r matches Ok(rec) && rec@ == vs,
                    }
                }
            },
        },
{
    let slen: usize = s.len();
    let sv = match Varint::new(s, pos) {
        Ok(v) => v,
        Err(e) => {
            return Err(e);
        },
    };
    proof {
        lemma_varint_decode_len(s@.skip(pos as int), 0, 0);
    }
    let start = pos + sv.byte_len;
    let remaining = (s.len() - start) as u64;
    if sv.value > remaining {
        return Err(Error::UnexpectedEof);
    }
    let size = sv.value as usize;
    let bytes = match read_n_bytes(s, start, size) {
        Ok(b) => b,
        Err(e) => {
            return Err(e);
        },
    };
    match Record::new(bytes.as_slice()) {
        Ok(rec) => Ok(rec),
        Err(e) => Err(e),
    }
}

impl Cell {
    /// Decodes the cell laid out at `pos` of page `s`, exactly as
    /// `spec_cell_decode` reads it under page type `t`.
    pub fn new(t: crate::page::PageType, s: &[u8], pos: usize) -> (r: Result<Cell, Error>)
        ensures
            match r {
                Ok(c) => spec_cell_decode(t, s@, pos as int) matches Ok(m) && c@ == m,
                Err(e) => spec_cell_decode(t, s@, pos as int) == Err::<CellModel, Error>(e),
            },
    {
        match t {
            crate::page::PageType::InteriorTable => {
                if s.len() < 4 || pos > s.len() - 4 {
                    return Err(Error::UnexpectedEof);
                }
                let left = match crate::utils::be_u32(s, pos) {
                    Ok(v) => v,
                    Err(e) => {
                        return Err(e);
                    },
                };
                let rv = match Varint::new(s, pos + 4) {
                    Ok(v) => v,
                    Err(e) => {
                        return Err(e);
                    },
                };
                Ok(Cell::InteriorTable { left, rowid: rv.value })
            },
            crate::page::PageType::InteriorIndex => {
                if s.len() < 4 || pos > s.len() - 4 {
                    return Err(Error::UnexpectedEof);
                }
                let left = match crate::utils::be_u32(s, pos) {
                    Ok(v) => v,
                    Err(e) => {
                        return Err(e);
                    },
                };
                match read_payload(s, pos + 4) {
                    Ok(payload) => Ok(Cell::InteriorIndex { left, payload }),
                    Err(e) => Err(e),
                }
            },
            crate::page::PageType::LeafIndex => {
                if pos > s.len() {
                    return Err(Error::UnexpectedEof);
                }
                match read_payload(s, pos) {
                    Ok(payload) => Ok(Cell::LeafIndex { payload }),
                    Err(e) => Err(e),
                }
            },
            crate::page::PageType::LeafTable => {
                let slen: usize = s.len();
                if pos > slen {
                    return Err(Error::UnexpectedEof);
                }
                let sv = match Varint::new(s, pos) {
                    Ok(v) => v,
                    Err(e) => {
                        return Err(e);
                    },
                };
                proof {
                    lemma_varint_decode_len(s@.skip(pos as int), 0, 0);
                }
                let rv = match Varint::new(s, pos + sv.byte_len) {
                    Ok(v) => v,
                    Err(e) => {
                        return Err(e);
                    },
                };
                proof {
                    lemma_varint_decode_len(s@.skip(pos + sv.byte_len), 0, 0);
                }
                let start = pos + sv.byte_len + rv.byte_len;
                let remaining = (s.len() - start) as u64;
                if sv.value > remaining {
                    return Err(Error::UnexpectedEof);
                }
                let size = sv.value as usize;
                let bytes = match read_n_bytes(s, start, size) {
                    Ok(b) => b,
                    Err(e) => {
                        return Err(e);
                    },
                };
                match Record::new(bytes.as_slice()) {
                    Ok(payload) => Ok(Cell::LeafTable { rowid: rv.value, payload }),
                    Err(e) => Err(e),
                }
            },
        }
    }

    /// An equal copy of the cell.
    pub fn duplicate(&self) -> (r: Cell)
        ensures
            r@ == self@,
    {
        match self {
            Cell::InteriorIndex { left, payload } => Cell::InteriorIndex {
                left: *left,
                payload: payload.duplicate(),
            },
            Cell::InteriorTable { left, rowid } => Cell::InteriorTable {
                left: *left,
                rowid: *rowid,
            },
            Cell::LeafIndex { payload } => Cell::LeafIndex { payload: payload.duplicate() },
            Cell::LeafTable { rowid, payload } => Cell::LeafTable {
                rowid: *rowid,
                payload: payload.duplicate(),
            },
        }
    }

    /// The value of column `num` of a table-leaf cell's record; `None` on
    /// every other cell kind.
    pub fn column(&self, num: usize) -> (r: Option<RecordValue>)
        ensures
            match self@ {
                CellModel::LeafTable { payload, .. } => (num < payload.len() ==> (r matches Some(v)
                    && v@ == payload[num as int])) && (num >= payload.len() ==> r is None),
                _ => r is None,
            },
    {
        if let Cell::LeafTable { payload, .. } = self {
            payload.column(num)
        } else {
            None
        }
    }

    /// The rowid of a table cell; `None` on index cells.
    pub fn rowid(&self) -> (r: Option<RowId>)
        ensures
            match self@ {
                CellModel::InteriorTable { rowid, .. } => r matches Some(n) && n == rowid,
                CellModel::LeafTable { rowid, .. } => r matches Some(n) && n == rowid,
                _ => r is None,
            },
    {
        match self {
            Cell::InteriorTable { rowid, .. } => Some(*rowid),
            Cell::LeafTable { rowid, .. } => Some(*rowid),
            _ => None,
        }
    }

    /// The left-child pointer of an interior cell; `None` on leaf cells.
    pub fn left(&self) -> (r: Option<crate::page::PageNum>)
        ensures
            match self@ {
                CellModel::InteriorIndex { left, .. } => r matches Some(p) && p == left,
                CellModel::InteriorTable { left, .. } => r matches Some(p) && p == left,
                _ => r is None,
            },
    {
        match self {
            Cell::InteriorIndex { left, .. } => Some(*left),
            Cell::InteriorTable { left, .. } => Some(*left),
            _ => None,
        }
    }

    /// The key value and rowid of an index cell's payload: its first two
    /// columns, the second a non-negative integer.
    pub fn index_payload(&self) -> (r: Option<(RecordValue, RowId)>)
        ensures
            match r {
                Some((k, n)) => spec_index_payload(self@) matches Some((km, nm)) && k@ == km
                    && n == nm,
                None => spec_index_payload(self@) is None,
            },
    {
        match self {
            Cell::InteriorIndex { payload, .. } => index_payload_of(payload),
            Cell::LeafIndex { payload } => index_payload_of(payload),
            _ => None,
        }
    }
}

/// The key and rowid held by an index cell's record: columns 0 and 1, the
/// rowid a non-negative integer.
pub open spec fn spec_index_payload(c: CellModel) -> Option<(ValueModel, int)> {
    match c {
        CellModel::InteriorIndex { payload, .. } => spec_payload_key_rowid(payload),
        CellModel::LeafIndex { payload } => spec_payload_key_rowid(payload),
        _ => None,
    }
}

/// Columns 0 and 1 of an index record, when column 1 is a non-negative
/// integer.
pub open spec fn spec_payload_key_rowid(payload: Seq<ValueModel>) -> Option<(ValueModel, int)> {
    if payload.len() >= 2 {
        match payload[1] {
            ValueModel::Int(n) => if 0 <= n {
                Some((payload[0], n))
            } else {
                None
            },
            _ => None,
        }
    } else {
        None
    }
}

fn index_payload_of(payload: &Record) -> (r: Option<(RecordValue, RowId)>)
    ensures
        match r {
            Some((k, n)) => spec_payload_key_rowid(payload@) matches Some((km, nm)) && k@ == km
                && n == nm,
            None => spec_payload_key_rowid(payload@) is None,
        },
{
    let key = match payload.column(0) {
        Some(k) => k,
        None => {
            return None;
        },
    };
    match payload.column(1) {
        Some(RecordValue::Int(n)) => {
            if n >= 0 {
                Some((key, n as u64))
            } else {
                None
            }
        },
        _ => None,
    }
}

} // verus!
