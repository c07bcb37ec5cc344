//! The base types of the TIFF format: value encodings, decoded values and
//! the codes of well-known tags and fields.
use vstd::prelude::*;

verus! {

/// The encodings that a directory entry may declare for its values.
#[derive(Clone, Copy, Debug, PartialEq, Eq, Structural)]
pub enum TagType {
    ByteTag,
    ASCIITag,
    ShortTag,
    LongTag,
    RationalTag,
    SignedByteTag,
    UndefinedTag,
    SignedShortTag,
    SignedLongTag,
    SignedRationalTag,
    FloatTag,
    DoubleTag,
    Long8,
    SLong8,
    IFD8,
    /// Not an encoding of the file format; it has no width.
    ShortOrLongTag,
}

/// The encoding that a type code of a directory entry stands for.
pub open spec fn tag_type_of(code: u16) -> Option<TagType> {
    match code {
        1 => Some(TagType::ByteTag),
        2 => Some(TagType::ASCIITag),
        3 => Some(TagType::ShortTag),
        4 => Some(TagType::LongTag),
        5 => Some(TagType::RationalTag),
        6 => Some(TagType::SignedByteTag),
        7 => Some(TagType::UndefinedTag),
        8 => Some(TagType::SignedShortTag),
        9 => Some(TagType::SignedLongTag),
        10 => Some(TagType::SignedRationalTag),
        11 => Some(TagType::FloatTag),
        12 => Some(TagType::DoubleTag),
        16 => Some(TagType::Long8),
        17 => Some(TagType::SLong8),
        18 => Some(TagType::IFD8),
        0xfffe => Some(TagType::ShortOrLongTag),
        _ => None,
    }
}

impl TagType {
    /// The encoding with type code `code`, if there is one.
    pub fn from_code(code: u16) -> (r: Option<TagType>)
        ensures
            r == tag_type_of(code),
    {
        match code {
            1 => Some(TagType::ByteTag),
            2 => Some(TagType::ASCIITag),
            3 => Some(TagType::ShortTag),
            4 => Some(TagType::LongTag),
            5 => Some(TagType::RationalTag),
            6 => Some(TagType::SignedByteTag),
            7 => Some(TagType::UndefinedTag),
            8 => Some(TagType::SignedShortTag),
            9 => Some(TagType::SignedLongTag),
            10 => Some(TagType::SignedRationalTag),
            11 => Some(TagType::FloatTag),
            12 => Some(TagType::DoubleTag),
            16 => Some(TagType::Long8),
            17 => Some(TagType::SLong8),
            18 => Some(TagType::IFD8),
            0xfffe => Some(TagType::ShortOrLongTag),
            _ => None,
        }
    }
}

/// The width in bytes of one value of encoding `t` (0 for no width).
pub open spec fn tag_width(t: TagType) -> nat {
    match t {
        TagType::ByteTag => 1,
        TagType::ASCIITag => 1,
        TagType::ShortTag => 2,
        TagType::LongTag => 4,
        TagType::RationalTag => 8,
        TagType::SignedByteTag => 1,
        TagType::UndefinedTag => 1,
        TagType::SignedShortTag => 2,
        TagType::SignedLongTag => 4,
        TagType::SignedRationalTag => 8,
        TagType::FloatTag => 4,
        TagType::DoubleTag => 8,
        TagType::Long8 => 8,
        TagType::SLong8 => 8,
        TagType::IFD8 => 8,
        TagType::ShortOrLongTag => 0,
    }
}

/// The width in bytes of one value of encoding `t`; 0 where it has none.
pub fn tag_size(t: &TagType) -> (r: u32)
    ensures
        r as nat == tag_width(*t),
        r <= 8,
{
    match *t {
        TagType::ByteTag => 1,
        TagType::ASCIITag => 1,
        TagType::ShortTag => 2,
        TagType::LongTag => 4,
        TagType::RationalTag => 8,
        TagType::SignedByteTag => 1,
        TagType::UndefinedTag => 1,
        TagType::SignedShortTag => 2,
        TagType::SignedLongTag => 4,
        TagType::SignedRationalTag => 8,
        TagType::FloatTag => 4,
        TagType::DoubleTag => 8,
        TagType::Long8 => 8,
        TagType::SLong8 => 8,
        TagType::IFD8 => 8,
        TagType::ShortOrLongTag => 0,
    }
}

/// One decoded value of a directory entry. Floating-point values are kept as
/// their IEEE 754 bit patterns; an ASCII value is one byte of the text.
#[derive(Clone, Copy, Debug, PartialEq, Eq, Structural)]
pub enum TagValue {
    ByteValue(u8),
    ShortValue(u16),
    LongValue(u32),
    AsciiValue(u8),
    RationalValue(u32, u32),
    SignedByteValue(i8),
    UndefinedValue(u8),
    SignedShortValue(i16),
    SignedLongValue(i32),
    SignedRationalValue(i32, i32),
    FloatValue(u32),
    DoubleValue(u64),
    Long8Value(u64),
    SignedLong8Value(i64),
    IFD8Value(u64),
}

/// How sample values map to shades.
#[derive(Clone, Copy, Debug, PartialEq, Eq, Structural)]
pub enum PhotometricInterpretation {
    WhiteIsZero,
    BlackIsZero,
}

/// The compression schemes of baseline TIFF and its extensions.
#[derive(Clone, Copy, Debug, PartialEq, Eq, Structural)]
pub enum Compression {
    Uncompressed,
    Huffman,
    LZW,
    OJPEG,
    JPEG,
    PackBits,
}

impl Compression {
    /// The scheme with code `code`, if there is one.
    pub fn from_code(code: u32) -> (r: Option<Compression>)
        ensures
            r == (match code {
                1 => Some(Compression::Uncompressed),
                2 => Some(Compression::Huffman),
                5 => Some(Compression::LZW),
                6 => Some(Compression::OJPEG),
                7 => Some(Compression::JPEG),
                32773 => Some(Compression::PackBits),
                _ => Option::<Compression>::None,
            }),
    {
        match code {
            1 => Some(Compression::Uncompressed),
            2 => Some(Compression::Huffman),
            5 => Some(Compression::LZW),
            6 => Some(Compression::OJPEG),
            7 => Some(Compression::JPEG),
            32773 => Some(Compression::PackBits),
            _ => Option::None,
        }
    }
}

/// The unit of the X and Y resolutions.
#[derive(Clone, Copy, Debug, PartialEq, Eq, Structural)]
pub enum ResolutionUnit {
    NoUnit,
    Inch,
    Centimetre,
}

/// How the bits of a sample are to be read.
#[derive(Clone, Copy, Debug, PartialEq, Eq, Structural)]
pub enum SampleFormat {
    UnsignedInteger,
    TwosComplementSignedInteger,
    IEEEFloatingPoint,
    Undefined,
}

/// The kinds of image that baseline TIFF knows.
#[derive(Clone, Copy, Debug, PartialEq, Eq, Structural)]
pub enum ImageType {
    Bilevel,
    Grayscale,
    PaletteColour,
    RGB,
    YCbCr,
}

/// Where row 0 and column 0 lie in the visual image.
#[derive(Clone, Copy, Debug, PartialEq, Eq, Structural)]
pub enum ImageOrientation {
    TopLeft,
    TopRight,
    BottomRight,
    BottomLeft,
    LeftTop,
    RightTop,
    RightBottom,
    LeftBottom,
}

// Codes of the tags that the reader and the key directory look up. A tag is
// kept as its code, so tags that nobody names here survive decoding unchanged.
pub const IMAGE_WIDTH_TAG: u16 = 0x0100;
pub const IMAGE_LENGTH_TAG: u16 = 0x0101;
pub const BITS_PER_SAMPLE_TAG: u16 = 0x0102;
pub const COMPRESSION_TAG: u16 = 0x0103;
pub const STRIP_OFFSETS_TAG: u16 = 0x0111;
pub const SAMPLES_PER_PIXEL_TAG: u16 = 0x0115;
pub const ROWS_PER_STRIP_TAG: u16 = 0x0116;
pub const PLANAR_CONFIGURATION_TAG: u16 = 0x011c;
pub const SAMPLE_FORMAT_TAG: u16 = 0x0153;
pub const STRIP_BYTE_COUNTS_TAG: u16 = 0x0117;
pub const GEO_KEY_DIRECTORY_TAG: u16 = 0x87af;

} // verus!
