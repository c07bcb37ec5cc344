use geotiff::bytes::{read_u16, read_u32, read_u64, ByteOrder};
use geotiff::keys::GeoKeyDirectory;
use geotiff::lowlevel::{tag_size, TagType, TagValue, GEO_KEY_DIRECTORY_TAG};
use geotiff::reader::{decode_entry, parse_header, read_chain, read_ifd, IFDEntry, IFD, TiffError};
use geotiff::TIFF;

fn push16(d: &mut Vec<u8>, le: bool, x: u16) {
    if le {
        d.extend_from_slice(&x.to_le_bytes());
    } else {
        d.extend_from_slice(&x.to_be_bytes());
    }
}

fn push32(d: &mut Vec<u8>, le: bool, x: u32) {
    if le {
        d.extend_from_slice(&x.to_le_bytes());
    } else {
        d.extend_from_slice(&x.to_be_bytes());
    }
}

fn header(le: bool, first: u32) -> Vec<u8> {
    let mut d = if le { vec![0x49, 0x49] } else { vec![0x4d, 0x4d] };
    push16(&mut d, le, 42);
    push32(&mut d, le, first);
    d
}

/// One entry whose value fits in the slot (short or long, one value).
fn entry(d: &mut Vec<u8>, le: bool, tag: u16, ty: u16, count: u32, slot: u32) {
    push16(d, le, tag);
    push16(d, le, ty);
    push32(d, le, count);
    if ty == 3 && count == 1 {
        push16(d, le, slot as u16);
        push16(d, le, 0);
    } else {
        push32(d, le, slot);
    }
}

/// A little-endian file with one IFD describing a `width` x `length` image
/// of one 8-bit sample per pixel in a single strip holding `pixels`.
fn small_image(width: u16, length: u16, pixels: &[u8], extra: &[(u16, u16, u32, u32)]) -> Vec<u8> {
    let le = true;
    let mut d = header(le, 8);
    let n = 5 + extra.len() as u16;
    let strip_at = 8 + 2 + 12 * n as u32 + 4;
    push16(&mut d, le, n);
    entry(&mut d, le, 0x100, 3, 1, width as u32);
    entry(&mut d, le, 0x101, 3, 1, length as u32);
    entry(&mut d, le, 0x111, 4, 1, strip_at);
    entry(&mut d, le, 0x115, 3, 1, 1);
    entry(&mut d, le, 0x117, 4, 1, pixels.len() as u32);
    for &(tag, ty, count, slot) in extra {
        entry(&mut d, le, tag, ty, count, slot);
    }
    push32(&mut d, le, 0);
    d.extend_from_slice(pixels);
    d
}

#[test]
fn test_load() {
    let data = small_image(2, 2, &[1, 2, 3, 4], &[]);
    match TIFF::open(&data) {
        Ok(x) => println!("Read tiff {:?}", x),
        Err(e) => println!("File I/O Error: {:?}", e),
    }
}

#[test]
fn header_little_endian() {
    let d = header(true, 0x0102_0304);
    assert_eq!(parse_header(&d), Ok((ByteOrder::LittleEndian, 0x0102_0304)));
}

#[test]
fn header_big_endian() {
    let d = header(false, 0x0102_0304);
    assert_eq!(parse_header(&d), Ok((ByteOrder::BigEndian, 0x0102_0304)));
}

#[test]
fn header_bad_marker() {
    let mut d = header(true, 8);
    d[0] = 0x49;
    d[1] = 0x4d;
    assert_eq!(parse_header(&d), Err(TiffError::HeaderFormatError));
}

#[test]
fn header_bad_version() {
    let mut d = header(true, 8);
    d[2] = 43;
    assert_eq!(parse_header(&d), Err(TiffError::HeaderFormatError));
}

#[test]
fn header_too_short() {
    assert_eq!(parse_header(&[0x49, 0x49, 42, 0]), Err(TiffError::IoError));
}

#[test]
fn reads_follow_byte_order() {
    let d = [1u8, 2, 3, 4, 5, 6, 7, 8];
    assert_eq!(read_u16(&d, ByteOrder::LittleEndian, 0), 0x0201);
    assert_eq!(read_u16(&d, ByteOrder::BigEndian, 0), 0x0102);
    assert_eq!(read_u32(&d, ByteOrder::LittleEndian, 4), 0x0807_0605);
    assert_eq!(read_u32(&d, ByteOrder::BigEndian, 4), 0x0506_0708);
    assert_eq!(read_u64(&d, ByteOrder::BigEndian, 0), 0x0102_0304_0506_0708);
}

#[test]
fn tag_sizes() {
    assert_eq!(tag_size(&TagType::ByteTag), 1);
    assert_eq!(tag_size(&TagType::ShortTag), 2);
    assert_eq!(tag_size(&TagType::LongTag), 4);
    assert_eq!(tag_size(&TagType::RationalTag), 8);
    assert_eq!(tag_size(&TagType::SignedLongTag), 4);
    assert_eq!(tag_size(&TagType::DoubleTag), 8);
    assert_eq!(tag_size(&TagType::Long8), 8);
    assert_eq!(tag_size(&TagType::ShortOrLongTag), 0);
    assert_eq!(TagType::from_code(3), Some(TagType::ShortTag));
    assert_eq!(TagType::from_code(13), None);
}

#[test]
fn round_trip_two_pixels() {
    let data = small_image(2, 1, &[10, 20], &[]);
    let t = TIFF::open(&data).unwrap();
    assert_eq!(t.ifds.len(), 1);
    assert_eq!(t.get_value_at(0, 0), 10);
    assert_eq!(t.get_value_at(0, 1), 20);
}

#[test]
fn rows_are_row_major() {
    let data = small_image(2, 2, &[1, 2, 3, 4], &[]);
    let t = TIFF::open(&data).unwrap();
    assert_eq!(t.image_data, vec![vec![vec![1], vec![2]], vec![vec![3], vec![4]]]);
}

#[test]
fn strips_of_one_row() {
    // Two strips of one row each, the second stored first.
    let le = true;
    let mut d = header(le, 8);
    push16(&mut d, le, 6);
    entry(&mut d, le, 0x100, 3, 1, 2);
    entry(&mut d, le, 0x101, 3, 1, 2);
    let offsets_at = 8 + 2 + 12 * 6 + 4;
    let counts_at = offsets_at + 8;
    let pixels_at = counts_at + 8;
    entry(&mut d, le, 0x111, 4, 2, offsets_at);
    entry(&mut d, le, 0x115, 3, 1, 1);
    entry(&mut d, le, 0x116, 3, 1, 1);
    entry(&mut d, le, 0x117, 4, 2, counts_at);
    push32(&mut d, le, 0);
    push32(&mut d, le, pixels_at + 2);
    push32(&mut d, le, pixels_at);
    push32(&mut d, le, 2);
    push32(&mut d, le, 2);
    d.extend_from_slice(&[30, 40, 10, 20]);
    let t = TIFF::open(&d).unwrap();
    assert_eq!(t.image_data, vec![vec![vec![10], vec![20]], vec![vec![30], vec![40]]]);
}

#[test]
fn sixteen_bit_samples_big_endian() {
    let le = false;
    let mut d = header(le, 8);
    push16(&mut d, le, 6);
    let strip_at = 8 + 2 + 12 * 6 + 4;
    entry(&mut d, le, 0x100, 3, 1, 2);
    entry(&mut d, le, 0x101, 3, 1, 1);
    entry(&mut d, le, 0x102, 3, 1, 16);
    entry(&mut d, le, 0x111, 4, 1, strip_at);
    entry(&mut d, le, 0x115, 3, 1, 1);
    entry(&mut d, le, 0x117, 4, 1, 4);
    push32(&mut d, le, 0);
    d.extend_from_slice(&[0x01, 0x02, 0x03, 0x04]);
    let t = TIFF::open(&d).unwrap();
    assert_eq!(t.byte_order, ByteOrder::BigEndian);
    assert_eq!(t.get_value_at(0, 0), 0x0102);
    assert_eq!(t.get_value_at(0, 1), 0x0304);
}

#[test]
fn compressed_strips_are_refused() {
    let data = small_image(2, 1, &[10, 20], &[(0x103, 3, 1, 5)]);
    assert_eq!(TIFF::open(&data).unwrap_err(), TiffError::ImageFormatError);
}

#[test]
fn strip_past_end_is_io_error() {
    let mut data = small_image(2, 1, &[10, 20], &[]);
    data.pop();
    assert_eq!(TIFF::open(&data).unwrap_err(), TiffError::IoError);
}

#[test]
fn short_strip_is_image_error() {
    let data = small_image(3, 1, &[10, 20], &[]);
    assert_eq!(TIFF::open(&data).unwrap_err(), TiffError::ImageFormatError);
}

#[test]
fn missing_width_is_image_error() {
    let le = true;
    let mut d = header(le, 8);
    push16(&mut d, le, 1);
    entry(&mut d, le, 0x101, 3, 1, 1);
    push32(&mut d, le, 0);
    assert_eq!(TIFF::open(&d).unwrap_err(), TiffError::ImageFormatError);
}

#[test]
fn eight_shorts_through_offset_big_endian() {
    let le = false;
    let mut d = Vec::new();
    entry(&mut d, le, 0x0102, 3, 8, 12);
    for k in 1..=8u16 {
        push16(&mut d, le, k);
    }
    let e: IFDEntry = decode_entry(&d, ByteOrder::BigEndian, 0).unwrap();
    assert_eq!(e.tag_type, TagType::ShortTag);
    assert_eq!(e.count, 8);
    let want: Vec<TagValue> = (1..=8u16).map(TagValue::ShortValue).collect();
    assert_eq!(e.value, want);
}

#[test]
fn inline_values_come_from_the_slot() {
    // Two shorts fit in the slot: the slot is not an offset, even though as
    // one it would point far past the end.
    let le = true;
    let mut d = Vec::new();
    push16(&mut d, le, 0x0102);
    push16(&mut d, le, 3);
    push32(&mut d, le, 2);
    push16(&mut d, le, 0xfff0);
    push16(&mut d, le, 0xfff1);
    let e = decode_entry(&d, ByteOrder::LittleEndian, 0).unwrap();
    assert_eq!(e.value, vec![TagValue::ShortValue(0xfff0), TagValue::ShortValue(0xfff1)]);
}

#[test]
fn signed_and_rational_values() {
    let le = true;
    let mut d = Vec::new();
    entry(&mut d, le, 1, 8, 2, 0xffff_8000);
    entry(&mut d, le, 2, 10, 1, 24);
    push32(&mut d, le, 0xffff_fffd);
    push32(&mut d, le, 4);
    let e = decode_entry(&d, ByteOrder::LittleEndian, 0).unwrap();
    assert_eq!(e.value, vec![TagValue::SignedShortValue(-32768), TagValue::SignedShortValue(-1)]);
    let r = decode_entry(&d, ByteOrder::LittleEndian, 12).unwrap();
    assert_eq!(r.value, vec![TagValue::SignedRationalValue(-3, 4)]);
}

#[test]
fn unknown_type_is_decode_error() {
    let mut d = Vec::new();
    entry(&mut d, true, 0x0102, 13, 1, 0);
    assert_eq!(decode_entry(&d, ByteOrder::LittleEndian, 0).unwrap_err(), TiffError::ValueDecodeError);
}

#[test]
fn zero_count_is_decode_error() {
    let mut d = Vec::new();
    entry(&mut d, true, 0x0102, 3, 0, 0);
    assert_eq!(decode_entry(&d, ByteOrder::LittleEndian, 0).unwrap_err(), TiffError::ValueDecodeError);
}

#[test]
fn values_past_end_are_decode_error() {
    let mut d = Vec::new();
    entry(&mut d, true, 0x0102, 4, 4, 8);
    assert_eq!(decode_entry(&d, ByteOrder::LittleEndian, 0).unwrap_err(), TiffError::ValueDecodeError);
}

#[test]
fn bad_entry_is_skipped() {
    let data = small_image(2, 1, &[10, 20], &[(0x9999, 13, 1, 0)]);
    let t = TIFF::open(&data).unwrap();
    assert_eq!(t.ifds[0].entries.len(), 5);
    assert_eq!(t.ifds[0].skipped, vec![0x9999]);
    assert_eq!(t.get_value_at(0, 1), 20);
}

#[test]
fn truncated_directory_is_error() {
    let mut d = header(true, 8);
    push16(&mut d, true, 3);
    assert_eq!(read_ifd(&d, ByteOrder::LittleEndian, 8).unwrap_err(), TiffError::DirectoryFormatError);
    assert_eq!(TIFF::open(&d).unwrap_err(), TiffError::DirectoryFormatError);
}

#[test]
fn self_referencing_chain_is_error() {
    let le = true;
    let mut d = header(le, 8);
    push16(&mut d, le, 1);
    entry(&mut d, le, 0x100, 3, 1, 1);
    push32(&mut d, le, 8);
    assert_eq!(read_chain(&d, ByteOrder::LittleEndian, 8).unwrap_err(), TiffError::DirectoryFormatError);
    assert_eq!(TIFF::open(&d).unwrap_err(), TiffError::DirectoryFormatError);
}

#[test]
fn two_directory_cycle_is_error() {
    let le = true;
    let mut d = header(le, 8);
    push16(&mut d, le, 1);
    entry(&mut d, le, 0x100, 3, 1, 1);
    push32(&mut d, le, 26);
    push16(&mut d, le, 1);
    entry(&mut d, le, 0x100, 3, 1, 1);
    push32(&mut d, le, 8);
    assert_eq!(read_chain(&d, ByteOrder::LittleEndian, 8).unwrap_err(), TiffError::DirectoryFormatError);
}

#[test]
fn chain_of_two_directories() {
    let le = true;
    let mut d = header(le, 8);
    push16(&mut d, le, 1);
    entry(&mut d, le, 0x100, 3, 1, 1);
    push32(&mut d, le, 26);
    push16(&mut d, le, 1);
    entry(&mut d, le, 0x101, 3, 1, 7);
    push32(&mut d, le, 0);
    let ifds = read_chain(&d, ByteOrder::LittleEndian, 8).unwrap();
    assert_eq!(ifds.len(), 2);
    assert_eq!(ifds[1].entries[0].tag, 0x101);
    assert_eq!(ifds[1].entries[0].value, vec![TagValue::ShortValue(7)]);
}

fn shorts(v: &[u16]) -> Vec<TagValue> {
    v.iter().map(|&x| TagValue::ShortValue(x)).collect()
}

#[test]
fn geokeys_header_only() {
    let g = GeoKeyDirectory::from_values(&shorts(&[1, 1, 0, 0])).unwrap();
    assert_eq!(g.key_directory_version, 1);
    assert_eq!(g.key_revision, 1);
    assert_eq!(g.minor_revision, 0);
    assert!(g.keys.is_empty());
}

#[test]
fn geokeys_ragged_tail() {
    let r = GeoKeyDirectory::from_values(&shorts(&[1, 1, 0, 0, 1024, 0]));
    assert_eq!(r.unwrap_err(), TiffError::GeoKeyFormatError);
}

#[test]
fn geokeys_count_mismatch() {
    let r = GeoKeyDirectory::from_values(&shorts(&[1, 1, 0, 2, 1024, 0, 1, 1]));
    assert_eq!(r.unwrap_err(), TiffError::GeoKeyFormatError);
}

#[test]
fn geokeys_not_shorts() {
    let r = GeoKeyDirectory::from_values(&vec![TagValue::LongValue(1); 4]);
    assert_eq!(r.unwrap_err(), TiffError::GeoKeyFormatError);
}

#[test]
fn geokeys_one_key() {
    let g = GeoKeyDirectory::from_values(&shorts(&[1, 1, 2, 1, 1024, 0, 1, 2])).unwrap();
    assert_eq!(g.keys.len(), 1);
    assert_eq!(g.keys[0].key_id, 1024);
    assert_eq!(g.keys[0].tiff_tag_location, 0);
    assert_eq!(g.keys[0].count, 1);
    assert_eq!(g.keys[0].value_offset, 2);
}

#[test]
fn geokeys_absent_is_none() {
    let data = small_image(2, 1, &[10, 20], &[]);
    let t = TIFF::open(&data).unwrap();
    assert!(GeoKeyDirectory::parse(&t.ifds[0]).unwrap().is_none());
}

#[test]
fn geokeys_from_directory() {
    let ifd = IFD {
        entries: vec![IFDEntry {
            tag: GEO_KEY_DIRECTORY_TAG,
            tag_type: TagType::ShortTag,
            count: 8,
            value: shorts(&[1, 1, 0, 1, 3072, 0, 1, 32633]),
        }],
        skipped: vec![],
        next_ifd: 0,
    };
    let g = GeoKeyDirectory::parse(&ifd).unwrap().unwrap();
    assert_eq!(g.keys[0].key_id, 3072);
    assert_eq!(g.keys[0].value_offset, 32633);
}

/// A little-endian 1-column image of `length` rows, `rps` rows per strip,
/// whose strips hold the given bytes.
fn striped_image(length: u16, rps: u16, strips: &[&[u8]]) -> Vec<u8> {
    let le = true;
    let mut d = header(le, 8);
    let n = strips.len() as u32;
    push16(&mut d, le, 6);
    let offsets_at = 8 + 2 + 12 * 6 + 4;
    let counts_at = offsets_at + 4 * n;
    let mut pixels_at = counts_at + 4 * n;
    entry(&mut d, le, 0x100, 3, 1, 1);
    entry(&mut d, le, 0x101, 3, 1, length as u32);
    entry(&mut d, le, 0x111, 4, n, if n == 1 { pixels_at - 8 } else { offsets_at });
    entry(&mut d, le, 0x115, 3, 1, 1);
    entry(&mut d, le, 0x116, 3, 1, rps as u32);
    entry(&mut d, le, 0x117, 4, n, if n == 1 { strips[0].len() as u32 } else { counts_at });
    push32(&mut d, le, 0);
    if n != 1 {
        for s in strips {
            push32(&mut d, le, pixels_at);
            pixels_at += s.len() as u32;
        }
        for s in strips {
            push32(&mut d, le, s.len() as u32);
        }
    }
    for s in strips {
        d.extend_from_slice(s);
    }
    d
}

#[test]
fn padded_strip_is_image_error() {
    let data = striped_image(2, 1, &[&[5, 6], &[7]]);
    assert_eq!(TIFF::open(&data).unwrap_err(), TiffError::ImageFormatError);
}

#[test]
fn extra_strip_is_image_error() {
    let data = striped_image(2, 1, &[&[5], &[7], &[9]]);
    assert_eq!(TIFF::open(&data).unwrap_err(), TiffError::ImageFormatError);
}

#[test]
fn shorter_last_strip() {
    let data = striped_image(3, 2, &[&[5, 6], &[7]]);
    let t = TIFF::open(&data).unwrap();
    assert_eq!(t.image_data, vec![vec![vec![5]], vec![vec![6]], vec![vec![7]]]);
}

#[test]
fn signed_samples_are_refused() {
    let data = small_image(2, 1, &[10, 20], &[(0x153, 3, 1, 2)]);
    assert_eq!(TIFF::open(&data).unwrap_err(), TiffError::ImageFormatError);
}

#[test]
fn unsigned_sample_format_is_accepted() {
    let data = small_image(2, 1, &[10, 20], &[(0x153, 3, 1, 1)]);
    assert_eq!(TIFF::open(&data).unwrap().get_value_at(0, 1), 20);
}

#[test]
fn planar_samples_are_refused() {
    let data = small_image(2, 1, &[10, 20], &[(0x11c, 3, 1, 2)]);
    assert_eq!(TIFF::open(&data).unwrap_err(), TiffError::ImageFormatError);
}
