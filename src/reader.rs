//! Decoding of the header, the directory entries and the chain of image file
//! directories (IFDs) of a classic TIFF file held in memory.
use vstd::prelude::*;
use crate::bytes::{ByteOrder, uint_at, read_u16, read_u32, read_u64, lemma_pow256_values};
use crate::lowlevel::{TagType, TagValue, tag_type_of, tag_width, tag_size};

verus! {

/// The stage at which decoding a file failed.
#[derive(Clone, Copy, Debug, PartialEq, Eq, Structural)]
pub enum TiffError {
    /// The data ends before a read that the format asks for.
    IoError,
    /// The byte-order marker or the version number is wrong.
    HeaderFormatError,
    /// A directory is truncated, empty, or the chain of directories loops.
    DirectoryFormatError,
    /// An entry has an unknown or widthless type, no values, or values past the end.
    ValueDecodeError,
    /// The GeoKey directory is not a well-formed list of shorts.
    GeoKeyFormatError,
    /// The image tags are missing, unsupported or disagree with the strips.
    ImageFormatError,
}

/// The byte order and first-IFD offset that an 8-byte header gives.
pub open spec fn header_spec(d: Seq<u8>) -> Result<(ByteOrder, u32), TiffError> {
    if d.len() < 8 {
        Err(TiffError::IoError)
    } else {
        let o = if d[0] == 0x49 && d[1] == 0x49 {
            Some(ByteOrder::LittleEndian)
        } else if d[0] == 0x4d && d[1] == 0x4d {
            Some(ByteOrder::BigEndian)
        } else {
            None
        };
        match o {
            None => Err(TiffError::HeaderFormatError),
            Some(o) => if uint_at(d, o, 2, 2) != 42 {
                Err(TiffError::HeaderFormatError)
            } else {
                Ok((o, uint_at(d, o, 4, 4) as u32))
            },
        }
    }
}

/// Reads the file header: its byte order and the offset of the first IFD.
pub fn parse_header(d: &[u8]) -> (r: Result<(ByteOrder, u32), TiffError>)
    ensures
        r == header_spec(d@),
{
    if d.len() < 8 {
        return Err(TiffError::IoError);
    }
    let o = if d[0] == 0x49 && d[1] == 0x49 {
        ByteOrder::LittleEndian
    } else if d[0] == 0x4d && d[1] == 0x4d {
        ByteOrder::BigEndian
    } else {
        return Err(TiffError::HeaderFormatError);
    };
    if read_u16(d, o, 2) != 42 {
        return Err(TiffError::HeaderFormatError);
    }
    Ok((o, read_u32(d, o, 4)))
}

pub open spec fn i8_of(x: u8) -> i8 {
    if x < 0x80 { x as i8 } else { (x as int - 0x100) as i8 }
}

pub open spec fn i16_of(x: u16) -> i16 {
    if x < 0x8000 { x as i16 } else { (x as int - 0x1_0000) as i16 }
}

pub open spec fn i32_of(x: u32) -> i32 {
    if x < 0x8000_0000 { x as i32 } else { (x as int - 0x1_0000_0000) as i32 }
}

pub open spec fn i64_of(x: u64) -> i64 {
    if x < 0x8000_0000_0000_0000 { x as i64 } else { (x as int - 0x1_0000_0000_0000_0000) as i64 }
}

fn to_i8(x: u8) -> (r: i8)
    ensures
        r == i8_of(x),
{
    if x < 0x80 { x as i8 } else { (x as i16 - 0x100) as i8 }
}

fn to_i16(x: u16) -> (r: i16)
    ensures
        r == i16_of(x),
{
    if x < 0x8000 { x as i16 } else { (x as i32 - 0x1_0000) as i16 }
}

fn to_i32(x: u32) -> (r: i32)
    ensures
        r == i32_of(x),
{
    if x < 0x8000_0000 { x as i32 } else { (x as i64 - 0x1_0000_0000) as i32 }
}

fn to_i64(x: u64) -> (r: i64)
    ensures
        r == i64_of(x),
{
    if x < 0x8000_0000_0000_0000 { x as i64 } else { -((u64::MAX - x) as i64) - 1 }
}

/// The value of encoding `t` stored at `pos`.
pub open spec fn value_at(d: Seq<u8>, o: ByteOrder, t: TagType, pos: int) -> TagValue {
    let u16_at = |q: int| uint_at(d, o, q, 2) as u16;
    let u32_at = |q: int| uint_at(d, o, q, 4) as u32;
    let u64_at = |q: int| uint_at(d, o, q, 8) as u64;
    match t {
        TagType::ByteTag => TagValue::ByteValue(d[pos]),
        TagType::ASCIITag => TagValue::AsciiValue(d[pos]),
        TagType::ShortTag => TagValue::ShortValue(u16_at(pos)),
        TagType::LongTag => TagValue::LongValue(u32_at(pos)),
        TagType::RationalTag => TagValue::RationalValue(u32_at(pos), u32_at(pos + 4)),
        TagType::SignedByteTag => TagValue::SignedByteValue(i8_of(d[pos])),
        TagType::UndefinedTag => TagValue::UndefinedValue(d[pos]),
        TagType::SignedShortTag => TagValue::SignedShortValue(i16_of(u16_at(pos))),
        TagType::SignedLongTag => TagValue::SignedLongValue(i32_of(u32_at(pos))),
        TagType::SignedRationalTag => TagValue::SignedRationalValue(
            i32_of(u32_at(pos)),
            i32_of(u32_at(pos + 4)),
        ),
        TagType::FloatTag => TagValue::FloatValue(u32_at(pos)),
        TagType::DoubleTag => TagValue::DoubleValue(u64_at(pos)),
        TagType::Long8 => TagValue::Long8Value(u64_at(pos)),
        TagType::SLong8 => TagValue::SignedLong8Value(i64_of(u64_at(pos))),
        TagType::IFD8 => TagValue::IFD8Value(u64_at(pos)),
        TagType::ShortOrLongTag => TagValue::UndefinedValue(d[pos]),
    }
}

/// Decodes the one value of encoding `t` stored at `pos`.
pub fn decode_value(d: &[u8], o: ByteOrder, t: TagType, pos: usize) -> (r: TagValue)
    requires
        pos + tag_width(t) <= d@.len(),
        tag_width(t) > 0,
    ensures
        r == value_at(d@, o, t, pos as int),
{
    let len = d.len();
    assert(pos + tag_width(t) <= len);
    match t {
        TagType::ByteTag => TagValue::ByteValue(d[pos]),
        TagType::ASCIITag => TagValue::AsciiValue(d[pos]),
        TagType::ShortTag => TagValue::ShortValue(read_u16(d, o, pos)),
        TagType::LongTag => TagValue::LongValue(read_u32(d, o, pos)),
        TagType::RationalTag => TagValue::RationalValue(read_u32(d, o, pos), read_u32(d, o, pos + 4)),
        TagType::SignedByteTag => TagValue::SignedByteValue(to_i8(d[pos])),
        TagType::UndefinedTag => TagValue::UndefinedValue(d[pos]),
        TagType::SignedShortTag => TagValue::SignedShortValue(to_i16(read_u16(d, o, pos))),
        TagType::SignedLongTag => TagValue::SignedLongValue(to_i32(read_u32(d, o, pos))),
        TagType::SignedRationalTag => TagValue::SignedRationalValue(
            to_i32(read_u32(d, o, pos)),
            to_i32(read_u32(d, o, pos + 4)),
        ),
        TagType::FloatTag => TagValue::FloatValue(read_u32(d, o, pos)),
        TagType::DoubleTag => TagValue::DoubleValue(read_u64(d, o, pos)),
        TagType::Long8 => TagValue::Long8Value(read_u64(d, o, pos)),
        TagType::SLong8 => TagValue::SignedLong8Value(to_i64(read_u64(d, o, pos))),
        TagType::IFD8 => TagValue::IFD8Value(read_u64(d, o, pos)),
        TagType::ShortOrLongTag => TagValue::UndefinedValue(d[pos]),
    }
}

/// A decoded directory entry, as a mathematical value.
pub struct EntryModel {
    pub tag: u16,
    pub tag_type: TagType,
    pub count: u32,
    pub value: Seq<TagValue>,
}

/// One decoded directory entry: its tag code, encoding, and its `count` values.
#[derive(Debug)]
pub struct IFDEntry {
    pub tag: u16,
    pub tag_type: TagType,
    pub count: u32,
    pub value: Vec<TagValue>,
}

impl View for IFDEntry {
    type V = EntryModel;

    open spec fn view(&self) -> EntryModel {
        EntryModel { tag: self.tag, tag_type: self.tag_type, count: self.count, value: self.value@ }
    }
}

/// Where the values of the 12-byte entry at `p` start: in the entry's own
/// 4-byte slot when they fit there, else at the offset that the slot holds.
pub open spec fn values_base(d: Seq<u8>, o: ByteOrder, p: int, t: TagType, count: nat) -> int {
    if count * tag_width(t) <= 4 {
        p + 8
    } else {
        uint_at(d, o, p + 8, 4) as int
    }
}

/// The 12-byte directory entry at `p`, decoded.
pub open spec fn entry_spec(d: Seq<u8>, o: ByteOrder, p: int) -> Result<EntryModel, TiffError> {
    let tag = uint_at(d, o, p, 2) as u16;
    let count = uint_at(d, o, p + 4, 4) as u32;
    match tag_type_of(uint_at(d, o, p + 2, 2) as u16) {
        None => Err(TiffError::ValueDecodeError),
        Some(t) => {
            let w = tag_width(t);
            let base = values_base(d, o, p, t, count as nat);
            if w == 0 || count == 0 || base + count * w > d.len() {
                Err(TiffError::ValueDecodeError)
            } else {
                Ok(EntryModel {
                    tag,
                    tag_type: t,
                    count,
                    value: Seq::new(count as nat, |i: int| value_at(d, o, t, base + i * w)),
                })
            }
        },
    }
}

/// Decodes the 12-byte directory entry at `p`: its values are read from the
/// entry's slot when `count * width <= 4`, else from the offset in the slot.
pub fn decode_entry(d: &[u8], o: ByteOrder, p: usize) -> (r: Result<IFDEntry, TiffError>)
    requires
        p + 12 <= d@.len(),
    ensures
        match r {
            Ok(e) => entry_spec(d@, o, p as int) == Ok::<EntryModel, TiffError>(e@),
            Err(x) => entry_spec(d@, o, p as int) == Err::<EntryModel, TiffError>(x),
        },
{
    let len = d.len();
    assert(p + 12 <= len);
    let tag = read_u16(d, o, p);
    let code = read_u16(d, o, p + 2);
    let count = read_u32(d, o, p + 4);
    let t = match TagType::from_code(code) {
        Some(t) => t,
        None => return Err(TiffError::ValueDecodeError),
    };
    let w = tag_size(&t);
    if w == 0 || count == 0 {
        return Err(TiffError::ValueDecodeError);
    }
    assert(count as int * w as int <= 0xffff_ffff * 8) by (nonlinear_arith)
        requires
            count <= 0xffff_ffff,
            w <= 8,
    ;
    let total: u64 = count as u64 * w as u64;
    let base: u64 = if total <= 4 {
        (p + 8) as u64
    } else {
        read_u32(d, o, p + 8) as u64
    };
    assert(base as int == values_base(d@, o, p as int, t, count as nat));
    if base + total > d.len() as u64 {
        return Err(TiffError::ValueDecodeError);
    }
    let ghost vs = Seq::new(count as nat, |i: int| value_at(d@, o, t, base + i * w));
    let mut value: Vec<TagValue> = Vec::new();
    let mut i: u32 = 0;
    let mut pos: usize = base as usize;
    while i < count
        invariant
            0 <= i <= count,
            pos as int == base as int + i as int * w as int,
            base as int + count as int * w as int <= d@.len(),
            1 <= w <= 8,
            tag_width(t) == w as nat,
            d@.len() == len,
            vs == Seq::new(count as nat, |j: int| value_at(d@, o, t, base + j * w)),
            value@ =~= vs.take(i as int),
        decreases count - i,
    {
        assert((i as int + 1) * (w as int) <= (count as int) * (w as int)) by (nonlinear_arith)
            requires
                i < count,
                w >= 1,
        ;
        assert((i as int + 1) * (w as int) == i as int * w as int + w as int) by (nonlinear_arith);
        let v = decode_value(d, o, t, pos);
        assert(v == vs[i as int]);
        value.push(v);
        i = i + 1;
        pos = pos + w as usize;
        assert(value@ =~= vs.take(i as int));
    }
    assert(vs.take(count as int) =~= vs);
    Ok(IFDEntry { tag, tag_type: t, count, value })
}

/// A decoded directory, as a mathematical value.
pub struct IFDModel {
    pub entries: Seq<EntryModel>,
    pub skipped: Seq<u16>,
    pub next_ifd: u32,
}

/// One image file directory: the entries that decoded, in file order, the tag
/// codes of the entries that did not, and the offset of the next directory
/// (0 at the end of the chain).
#[derive(Debug)]
pub struct IFD {
    pub entries: Vec<IFDEntry>,
    pub skipped: Vec<u16>,
    pub next_ifd: u32,
}

impl View for IFD {
    type V = IFDModel;

    open spec fn view(&self) -> IFDModel {
        IFDModel {
            entries: self.entries@.map_values(|e: IFDEntry| e@),
            skipped: self.skipped@,
            next_ifd: self.next_ifd,
        }
    }
}

/// The entries among the first `k` of those from `start` that decode.
pub open spec fn entries_upto(d: Seq<u8>, o: ByteOrder, start: int, k: nat) -> Seq<EntryModel>
    decreases k,
{
    if k == 0 {
        Seq::empty()
    } else {
        let prev = entries_upto(d, o, start, (k - 1) as nat);
        match entry_spec(d, o, start + 12 * (k - 1)) {
            Ok(e) => prev.push(e),
            Err(_) => prev,
        }
    }
}

/// The tag codes of the entries among the first `k` from `start` that do not decode.
pub open spec fn skipped_upto(d: Seq<u8>, o: ByteOrder, start: int, k: nat) -> Seq<u16>
    decreases k,
{
    if k == 0 {
        Seq::empty()
    } else {
        let prev = skipped_upto(d, o, start, (k - 1) as nat);
        let p = start + 12 * (k - 1);
        match entry_spec(d, o, p) {
            Ok(_) => prev,
            Err(_) => prev.push(uint_at(d, o, p, 2) as u16),
        }
    }
}

/// The directory at `off`: a 2-byte entry count `n`, `n` entries of 12 bytes
/// and the 4-byte offset of the next directory.
pub open spec fn ifd_spec(d: Seq<u8>, o: ByteOrder, off: int) -> Result<IFDModel, TiffError> {
    if off + 2 > d.len() {
        Err(TiffError::DirectoryFormatError)
    } else {
        let n = uint_at(d, o, off, 2);
        if n == 0 || off + 2 + 12 * n + 4 > d.len() {
            Err(TiffError::DirectoryFormatError)
        } else {
            Ok(IFDModel {
                entries: entries_upto(d, o, off + 2, n),
                skipped: skipped_upto(d, o, off + 2, n),
                next_ifd: uint_at(d, o, off + 2 + 12 * n, 4) as u32,
            })
        }
    }
}

/// Reads the directory at `off`. An entry that does not decode is left out and
/// its tag code recorded; the directory itself fails only when it is empty or
/// truncated.
pub fn read_ifd(d: &[u8], o: ByteOrder, off: u32) -> (r: Result<IFD, TiffError>)
    ensures
        match r {
            Ok(ifd) => ifd_spec(d@, o, off as int) == Ok::<IFDModel, TiffError>(ifd@),
            Err(x) => ifd_spec(d@, o, off as int) == Err::<IFDModel, TiffError>(x),
        },
{
    let len = d.len();
    if off as u64 + 2 > len as u64 {
        return Err(TiffError::DirectoryFormatError);
    }
    let start = off as usize + 2;
    let n = read_u16(d, o, off as usize);
    if n == 0 || start as u64 + 12 * (n as u64) + 4 > len as u64 {
        return Err(TiffError::DirectoryFormatError);
    }
    let mut entries: Vec<IFDEntry> = Vec::new();
    let mut skipped: Vec<u16> = Vec::new();
    let mut k: u16 = 0;
    let mut p: usize = start;
    while k < n
        invariant
            0 <= k <= n,
            p == start + 12 * k,
            start + 12 * n + 4 <= len,
            d@.len() == len,
            entries@.map_values(|e: IFDEntry| e@) == entries_upto(d@, o, start as int, k as nat),
            skipped@ == skipped_upto(d@, o, start as int, k as nat),
        decreases n - k,
    {
        let ghost old_entries = entries@;
        match decode_entry(d, o, p) {
            Ok(e) => {
                entries.push(e);
                assert(entries@.map_values(|e: IFDEntry| e@) =~= old_entries.map_values(
                    |e: IFDEntry| e@,
                ).push(e@));
            },
            Err(_) => {
                let tag = read_u16(d, o, p);
                skipped.push(tag);
            },
        }
        k = k + 1;
        p = p + 12;
    }
    let next_ifd = read_u32(d, o, p);
    Ok(IFD { entries, skipped, next_ifd })
}

/// The chain of directories from `off`, given the offsets already `visited`
/// on the way there. Revisiting an offset is an error, so the chain is finite.
pub open spec fn chain_spec(d: Seq<u8>, o: ByteOrder, off: u32, visited: Seq<u32>) -> Result<
    Seq<IFDModel>,
    TiffError,
>
    decreases d.len() - visited.len(),
{
    if visited.contains(off) || visited.len() >= d.len() {
        Err(TiffError::DirectoryFormatError)
    } else {
        match ifd_spec(d, o, off as int) {
            Err(e) => Err(e),
            Ok(ifd) => if ifd.next_ifd == 0 {
                Ok(seq![ifd])
            } else {
                match chain_spec(d, o, ifd.next_ifd, visited.push(off)) {
                    Err(e) => Err(e),
                    Ok(rest) => Ok(seq![ifd] + rest),
                }
            },
        }
    }
}

fn contains_offset(v: &Vec<u32>, x: u32) -> (r: bool)
    ensures
        r == v@.contains(x),
{
    let mut i: usize = 0;
    while i < v.len()
        invariant
            0 <= i <= v.len(),
            forall|j: int| 0 <= j < i ==> v@[j] != x,
        decreases v.len() - i,
    {
        if v[i] == x {
            return true;
        }
        i = i + 1;
    }
    false
}

/// Reads the chain of directories that starts at `first`, up to the first
/// zero next-offset; fails on a directory that is malformed and on a chain
/// that returns to an offset it has visited.
pub fn read_chain(d: &[u8], o: ByteOrder, first: u32) -> (r: Result<Vec<IFD>, TiffError>)
    ensures
        match r {
            Ok(ifds) => chain_spec(d@, o, first, Seq::empty()) == Ok::<Seq<IFDModel>, TiffError>(
                ifds@.map_values(|i: IFD| i@),
            ),
            Err(x) => chain_spec(d@, o, first, Seq::empty()) == Err::<Seq<IFDModel>, TiffError>(x),
        },
{
    let mut ifds: Vec<IFD> = Vec::new();
    let mut visited: Vec<u32> = Vec::new();
    let mut off = first;
    loop
        invariant
            visited@.len() <= d@.len(),
            chain_spec(d@, o, first, Seq::empty()) == match chain_spec(d@, o, off, visited@) {
                Ok(rest) => Ok(ifds@.map_values(|i: IFD| i@) + rest),
                Err(e) => Err::<Seq<IFDModel>, TiffError>(e),
            },
        decreases d@.len() - visited@.len(),
    {
        if contains_offset(&visited, off) || visited.len() >= d.len() {
            return Err(TiffError::DirectoryFormatError);
        }
        let ifd = match read_ifd(d, o, off) {
            Ok(ifd) => ifd,
            Err(e) => return Err(e),
        };
        let ghost before = ifds@.map_values(|i: IFD| i@);
        let ghost model = ifd@;
        let next = ifd.next_ifd;
        ifds.push(ifd);
        assert(ifds@.map_values(|i: IFD| i@) =~= before.push(model));
        if next == 0 {
            assert(before + seq![model] =~= before.push(model));
            return Ok(ifds);
        }
        proof {
            assert forall|rest: Seq<IFDModel>| #![auto] before + (seq![model] + rest) =~= before.push(model) + rest by {}
        }
        visited.push(off);
        off = next;
    }
}

/// The four bytes of `x` in byte order `o`.
pub open spec fn u32_bytes(o: ByteOrder, x: u32) -> Seq<u8> {
    let b0 = (x % 256) as u8;
    let b1 = (x / 256 % 256) as u8;
    let b2 = (x / 65536 % 256) as u8;
    let b3 = (x / 16777216) as u8;
    match o {
        ByteOrder::LittleEndian => seq![b0, b1, b2, b3],
        ByteOrder::BigEndian => seq![b3, b2, b1, b0],
    }
}

/// The 8-byte header of a file in byte order `o` whose first IFD is at `first`.
pub open spec fn header_bytes(o: ByteOrder, first: u32) -> Seq<u8> {
    let marker: u8 = match o {
        ByteOrder::LittleEndian => 0x49,
        ByteOrder::BigEndian => 0x4d,
    };
    let version = match o {
        ByteOrder::LittleEndian => seq![42u8, 0u8],
        ByteOrder::BigEndian => seq![0u8, 42u8],
    };
    seq![marker, marker] + version + u32_bytes(o, first)
}

proof fn lemma_u32_bytes(o: ByteOrder, x: u32)
    ensures
        uint_at(u32_bytes(o, x), o, 0, 4) == x,
{
    let b = u32_bytes(o, x);
    assert(b.subrange(0, 4) =~= b);
    reveal_with_fuel(crate::bytes::uint_le, 5);
    reveal_with_fuel(crate::bytes::uint_be, 5);
    assert(b.drop_first().drop_first().drop_first().drop_first() =~= Seq::<u8>::empty());
    assert(b.drop_last().drop_last().drop_last().drop_last() =~= Seq::<u8>::empty());
    assert(x == x % 256 + 256 * (x / 256 % 256 + 256 * (x / 65536 % 256 + 256 * (x / 16777216))));
}

/// A header built from a byte order and a first-IFD offset reads back as
/// that byte order and that offset, whatever follows it.
pub proof fn lemma_header_round_trip(o: ByteOrder, first: u32, rest: Seq<u8>)
    ensures
        header_spec(header_bytes(o, first) + rest) == Ok::<(ByteOrder, u32), TiffError>((o, first)),
{
    let d = header_bytes(o, first) + rest;
    let v = match o {
        ByteOrder::LittleEndian => seq![42u8, 0u8],
        ByteOrder::BigEndian => seq![0u8, 42u8],
    };
    assert(d.subrange(2, 4) =~= v);
    assert(d.subrange(4, 8) =~= u32_bytes(o, first).subrange(0, 4));
    reveal_with_fuel(crate::bytes::uint_le, 3);
    reveal_with_fuel(crate::bytes::uint_be, 3);
    assert(v.drop_first().drop_first() =~= Seq::<u8>::empty());
    assert(v.drop_last().drop_last() =~= Seq::<u8>::empty());
    assert(uint_at(d, o, 2, 2) == 42);
    lemma_u32_bytes(o, first);
    assert(uint_at(d, o, 4, 4) == uint_at(u32_bytes(o, first), o, 0, 4));
}

/// Data of at least 8 bytes that starts with neither byte-order marker is
/// refused with a header error.
pub proof fn lemma_header_bad_marker(d: Seq<u8>)
    requires
        d.len() >= 8,
        !(d[0] == 0x49 && d[1] == 0x49),
        !(d[0] == 0x4d && d[1] == 0x4d),
    ensures
        header_spec(d) == Err::<(ByteOrder, u32), TiffError>(TiffError::HeaderFormatError),
{
}

proof fn lemma_uint_at_local(d1: Seq<u8>, d2: Seq<u8>, o: ByteOrder, pa: int, pb: int, w: int, k: int, n: int)
    requires
        0 <= pa,
        pa + w <= d1.len(),
        0 <= pb,
        pb + w <= d2.len(),
        0 <= k,
        0 <= n,
        k + n <= w,
        d1.subrange(pa, pa + w) == d2.subrange(pb, pb + w),
    ensures
        uint_at(d1, o, pa + k, n) == uint_at(d2, o, pb + k, n),
{
    assert(d1.subrange(pa + k, pa + k + n) =~= d1.subrange(pa, pa + w).subrange(k, k + n));
    assert(d2.subrange(pb + k, pb + k + n) =~= d2.subrange(pb, pb + w).subrange(k, k + n));
}

proof fn lemma_value_local(d1: Seq<u8>, d2: Seq<u8>, o: ByteOrder, t: TagType, pa: int, pb: int)
    requires
        0 <= pa,
        pa + tag_width(t) <= d1.len(),
        0 <= pb,
        pb + tag_width(t) <= d2.len(),
        tag_width(t) > 0,
        d1.subrange(pa, pa + tag_width(t)) == d2.subrange(pb, pb + tag_width(t)),
    ensures
        value_at(d1, o, t, pa) == value_at(d2, o, t, pb),
{
    let w = tag_width(t) as int;
    assert(d1[pa] == d1.subrange(pa, pa + w)[0]);
    assert(d2[pb] == d2.subrange(pb, pb + w)[0]);
    if w >= 2 {
        lemma_uint_at_local(d1, d2, o, pa, pb, w, 0, 2);
    }
    if w >= 4 {
        lemma_uint_at_local(d1, d2, o, pa, pb, w, 0, 4);
    }
    if w >= 8 {
        lemma_uint_at_local(d1, d2, o, pa, pb, w, 4, 4);
        lemma_uint_at_local(d1, d2, o, pa, pb, w, 0, 8);
    }
}

/// Whether the type and count that the 12-byte entry at `p` declares put its
/// values in the entry's own 4-byte slot.
pub open spec fn entry_is_inline(d: Seq<u8>, o: ByteOrder, p: int) -> bool {
    match tag_type_of(uint_at(d, o, p + 2, 2) as u16) {
        None => false,
        Some(t) => (uint_at(d, o, p + 4, 4) as u32) as nat * tag_width(t) <= 4,
    }
}

/// An entry whose values fit in its slot decodes from its own 12 bytes
/// alone: two files that agree on those bytes decode it alike, whatever else
/// they hold.
pub proof fn lemma_inline_entry_reads_only_entry(d1: Seq<u8>, d2: Seq<u8>, o: ByteOrder, p: int)
    requires
        0 <= p,
        p + 12 <= d1.len(),
        p + 12 <= d2.len(),
        d1.subrange(p, p + 12) == d2.subrange(p, p + 12),
        entry_is_inline(d1, o, p),
    ensures
        entry_spec(d1, o, p) == entry_spec(d2, o, p),
{
    lemma_uint_at_local(d1, d2, o, p, p, 12, 0, 2);
    lemma_uint_at_local(d1, d2, o, p, p, 12, 2, 2);
    lemma_uint_at_local(d1, d2, o, p, p, 12, 4, 4);
    let t = tag_type_of(uint_at(d1, o, p + 2, 2) as u16).unwrap();
    let count = uint_at(d1, o, p + 4, 4) as u32;
    let w = tag_width(t);
    if w > 0 && count > 0 {
        if let Ok(e1) = entry_spec(d1, o, p) {
            let e2 = entry_spec(d2, o, p).unwrap();
            assert forall|i: int| 0 <= i < count implies e1.value[i] == e2.value[i] by {
                assert(i * w + w <= count * w) by (nonlinear_arith)
                    requires
                        i < count,
                ;
                let q = p + 8 + i * w;
                assert(d1.subrange(q, q + w) =~= d1.subrange(p, p + 12).subrange(8 + i * w, 8 + i * w + w));
                assert(d2.subrange(q, q + w) =~= d2.subrange(p, p + 12).subrange(8 + i * w, 8 + i * w + w));
                lemma_value_local(d1, d2, o, t, q, q);
            }
            assert(e1.value =~= e2.value);
        }
    }
}

/// An entry whose values do not fit in its slot decodes to exactly `count`
/// values of its type, read one after another from the offset in its slot;
/// where the entry stands does not matter, only its 12 bytes do.
pub proof fn lemma_offset_entry_follows_offset(d: Seq<u8>, o: ByteOrder, pa: int, pb: int)
    requires
        0 <= pa,
        0 <= pb,
        pa + 12 <= d.len(),
        pb + 12 <= d.len(),
        d.subrange(pa, pa + 12) == d.subrange(pb, pb + 12),
        !entry_is_inline(d, o, pa),
        entry_spec(d, o, pa) is Ok,
    ensures
        entry_spec(d, o, pa) == entry_spec(d, o, pb),
        ({
            let e = entry_spec(d, o, pa).unwrap();
            let off = uint_at(d, o, pa + 8, 4);
            let w = tag_width(e.tag_type);
            &&& e.value.len() == e.count
            &&& forall|i: int| 0 <= i < e.count ==> #[trigger] e.value[i] == value_at(d, o, e.tag_type, off + i * w)
        }),
{
    lemma_uint_at_local(d, d, o, pa, pb, 12, 0, 2);
    lemma_uint_at_local(d, d, o, pa, pb, 12, 2, 2);
    lemma_uint_at_local(d, d, o, pa, pb, 12, 4, 4);
    lemma_uint_at_local(d, d, o, pa, pb, 12, 8, 4);
    let e1 = entry_spec(d, o, pa).unwrap();
    let e2 = entry_spec(d, o, pb).unwrap();
    assert(e1.value =~= e2.value);
}

/// Walking the chain into an offset that it has already visited fails with
/// a directory error, so a chain with a cycle never loops.
pub proof fn lemma_revisit_fails(d: Seq<u8>, o: ByteOrder, off: u32, visited: Seq<u32>)
    requires
        visited.contains(off),
    ensures
        chain_spec(d, o, off, visited) == Err::<Seq<IFDModel>, TiffError>(TiffError::DirectoryFormatError),
{
}

/// A directory whose next offset is its own offset makes the whole chain
/// fail with a directory error.
pub proof fn lemma_self_loop_fails(d: Seq<u8>, o: ByteOrder, off: u32)
    requires
        ifd_spec(d, o, off as int) is Ok,
        ifd_spec(d, o, off as int).unwrap().next_ifd == off,
        off != 0,
    ensures
        chain_spec(d, o, off, Seq::empty()) == Err::<Seq<IFDModel>, TiffError>(TiffError::DirectoryFormatError),
{
    if d.len() > 0 {
        let v = Seq::<u32>::empty().push(off);
        assert(v.contains(off)) by {
            assert(v[0] == off);
        }
        assert(!Seq::<u32>::empty().contains(off));
        lemma_revisit_fails(d, o, off, v);
    }
}

/// Where record `j` of the directory at `off` starts.
pub open spec fn record_pos(off: int, j: int) -> int {
    off + 2 + 12 * j
}

proof fn lemma_entries_from_records(d: Seq<u8>, o: ByteOrder, off: int, k: nat, m: int)
    requires
        0 <= m < entries_upto(d, o, off + 2, k).len(),
    ensures
        exists|j: int|
            0 <= j < k && #[trigger] entry_spec(d, o, record_pos(off, j)) == Ok::<EntryModel, TiffError>(
                entries_upto(d, o, off + 2, k)[m],
            ),
    decreases k,
{
    let prev = entries_upto(d, o, off + 2, (k - 1) as nat);
    if m < prev.len() {
        lemma_entries_from_records(d, o, off, (k - 1) as nat, m);
        let j = choose|j: int|
            0 <= j < k - 1 && #[trigger] entry_spec(d, o, record_pos(off, j)) == Ok::<EntryModel, TiffError>(
                prev[m],
            );
        assert(entry_spec(d, o, record_pos(off, j)) == Ok::<EntryModel, TiffError>(
            entries_upto(d, o, off + 2, k)[m],
        ));
    } else {
        assert(entry_spec(d, o, record_pos(off, k - 1)) == Ok::<EntryModel, TiffError>(
            entries_upto(d, o, off + 2, k)[m],
        ));
    }
}

/// Every entry of a directory is the decoding of one of its 12-byte records.
pub proof fn lemma_ifd_entries_from_records(d: Seq<u8>, o: ByteOrder, off: int, m: int)
    requires
        ifd_spec(d, o, off) is Ok,
        0 <= m < ifd_spec(d, o, off).unwrap().entries.len(),
    ensures
        exists|j: int|
            0 <= j < uint_at(d, o, off, 2) && #[trigger] entry_spec(d, o, record_pos(off, j)) == Ok::<
                EntryModel,
                TiffError,
            >(ifd_spec(d, o, off).unwrap().entries[m]),
{
    lemma_entries_from_records(d, o, off, uint_at(d, o, off, 2), m);
}

/// Every directory of a chain is the directory at some offset of the data.
pub proof fn lemma_chain_ifds_at_offsets(d: Seq<u8>, o: ByteOrder, off: u32, visited: Seq<u32>, k: int)
    requires
        chain_spec(d, o, off, visited) is Ok,
        0 <= k < chain_spec(d, o, off, visited).unwrap().len(),
    ensures
        exists|q: u32| #[trigger] ifd_spec(d, o, q as int) == Ok::<IFDModel, TiffError>(
            chain_spec(d, o, off, visited).unwrap()[k],
        ),
    decreases d.len() - visited.len(),
{
    let ifd = ifd_spec(d, o, off as int).unwrap();
    if k == 0 {
        assert(ifd_spec(d, o, off as int) == Ok::<IFDModel, TiffError>(
            chain_spec(d, o, off, visited).unwrap()[k],
        ));
    } else {
        let rest = chain_spec(d, o, ifd.next_ifd, visited.push(off)).unwrap();
        lemma_chain_ifds_at_offsets(d, o, ifd.next_ifd, visited.push(off), k - 1);
        assert(chain_spec(d, o, off, visited).unwrap()[k] == rest[k - 1]);
    }
}

} // verus!
