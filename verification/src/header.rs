//! Structs and enums which make up the header of an SQP file.

use crate::binio::IoFailure;
use crate::picture::Error;
use byteorder::ByteOrder;
use byteorder::LittleEndian;
use byteorder::WriteBytesExt;
use vstd::prelude::*;

verus! {

/// The four bytes of a `u32`, lowest first.
pub open spec fn le_bytes(value: u32) -> Seq<u8> {
    seq![
        (value % 256) as u8,
        ((value / 256) % 256) as u8,
        ((value / 65536) % 256) as u8,
        ((value / 16777216) % 256) as u8,
    ]
}

/// The number that the first four bytes of `bytes` stand for, lowest byte
/// first.
pub open spec fn le_value(bytes: Seq<u8>) -> nat {
    (bytes[0] + 256 * bytes[1] + 65536 * bytes[2] + 16777216 * bytes[3]) as nat
}

/// The four bytes of a number stand for that number.
pub proof fn lemma_le_roundtrip(value: u32)
    ensures
        le_bytes(value).len() == 4,
        le_value(le_bytes(value)) == value,
{
}

/// Four bytes stand for a number that fits a `u32`.
pub proof fn lemma_le_value_fits(bytes: Seq<u8>)
    ensures
        le_value(bytes) <= u32::MAX,
{
}

/// Appends `value` to `output` with byteorder's `WriteBytesExt::write_u32`
/// in little-endian order. The contract claims that exactly the four bytes
/// of `value` are appended, lowest first. Writing to a `Vec` cannot fail.
#[verifier::external_body]
pub(crate) fn write_u32_le(output: &mut Vec<u8>, value: u32)
    ensures
        final(output)@ == old(output)@ + le_bytes(value),
{
    let _ = output.write_u32::<LittleEndian>(value);
}

/// Reads the four bytes of `input` from `at` on with byteorder's
/// `ByteOrder::read_u32` for `LittleEndian`. The contract claims that the
/// result is the number those bytes stand for, lowest byte first. The
/// outside function panics on fewer than four bytes, which `requires` rules
/// out.
#[verifier::external_body]
pub(crate) fn read_u32_le(input: &[u8], at: usize) -> (value: u32)
    requires
        at + 4 <= input@.len(),
    ensures
        value == le_value(input@.subrange(at as int, at + 4)),
{
    LittleEndian::read_u32(&input[at..])
}

/// The identifier that opens every file: the ASCII text `dangoimg`.
pub open spec fn magic_bytes() -> Seq<u8> {
    seq![0x64u8, 0x61u8, 0x6eu8, 0x67u8, 0x6fu8, 0x69u8, 0x6du8, 0x67u8]
}

/// The identifier that opens every file: the ASCII text `dangoimg`.
pub fn magic() -> (m: [u8; 8])
    ensures
        m@ == magic_bytes(),
{
    let m: [u8; 8] = [0x64, 0x61, 0x6e, 0x67, 0x6f, 0x69, 0x6d, 0x67];
    proof {
        assert(m@ =~= magic_bytes());
    }
    m
}

/// A file header. This stands at the beginning of every valid file.
#[derive(Debug, Clone, Copy)]
pub struct Header {
    /// Identifier. Must be set to "dangoimg".
    pub magic: [u8; 8],
    /// Width of the image in pixels.
    pub width: u32,
    /// Height of the image in pixels.
    pub height: u32,
    /// Type of compression used on the data.
    pub compression_type: CompressionType,
    /// Level of compression. Only applies in lossy mode, otherwise this
    /// value should be set to 0, and ignored.
    pub quality: u8,
    /// Format of color data in the image.
    pub color_format: ColorFormat,
}

/// What the first bytes of a file are, read as a header.
pub enum HeaderStatus {
    /// The bytes end before the header does.
    Truncated,
    /// The first eight bytes are not the identifier.
    WrongMagic,
    /// The compression type or the color format is a byte that stands for
    /// none.
    BadField,
    /// The bytes start with a header.
    Valid,
}

/// Reads the first bytes of a file as a header, field by field: the first
/// field that cannot be read decides.
pub open spec fn header_status(bytes: Seq<u8>) -> HeaderStatus {
    if bytes.len() < 8 {
        HeaderStatus::Truncated
    } else if bytes.subrange(0, 8) != magic_bytes() {
        HeaderStatus::WrongMagic
    } else if bytes.len() < 17 {
        HeaderStatus::Truncated
    } else if bytes[16] > 2 {
        HeaderStatus::BadField
    } else if bytes.len() < 19 {
        HeaderStatus::Truncated
    } else if bytes[18] > 3 {
        HeaderStatus::BadField
    } else {
        HeaderStatus::Valid
    }
}

impl Default for Header {
    fn default() -> (h: Self)
        ensures
            h.magic@ == magic_bytes(),
            h.width == 0,
            h.height == 0,
            h.compression_type == CompressionType::Lossless,
            h.quality == 0,
            h.color_format == ColorFormat::Rgba8,
    {
        Self {
            magic: magic(),
            width: 0,
            height: 0,
            compression_type: CompressionType::Lossless,
            quality: 0,
            color_format: ColorFormat::Rgba8,
        }
    }
}

impl Header {
    /// The 19 bytes of the header in a file: the identifier, width and
    /// height with their lowest byte first, then one byte each for the
    /// compression type, the quality and the color format.
    pub open spec fn bytes(&self) -> Seq<u8> {
        self.magic@ + le_bytes(self.width) + le_bytes(self.height) + seq![
            self.compression_type.spec_to_u8(),
            self.quality,
            self.color_format.spec_to_u8(),
        ]
    }

    /// The header says of the image what `bytes` start with: identifier,
    /// width, height, compression type and color format are those of the
    /// bytes. The quality is left aside.
    pub open spec fn describes(&self, bytes: Seq<u8>) -> bool {
        &&& self.magic@ == magic_bytes()
        &&& self.width == le_value(bytes.subrange(8, 12))
        &&& self.height == le_value(bytes.subrange(12, 16))
        &&& self.compression_type.spec_to_u8() == bytes[16]
        &&& self.color_format.spec_to_u8() == bytes[18]
    }

    /// The header is the one that `bytes` start with, field by field.
    pub open spec fn matches_bytes(&self, bytes: Seq<u8>) -> bool {
        &&& self.describes(bytes)
        &&& self.quality == bytes[17]
    }

    /// Write the header at the end of `output`.
    ///
    /// Returns the number of bytes written.
    pub fn write_into(&self, output: &mut Vec<u8>) -> (count: usize)
        ensures
            count == 19,
            final(output)@ == old(output)@ + self.bytes(),
    {
        let mut count: usize = 0;
        let mut i: usize = 0;
        while i < 8
            invariant
                i <= 8,
                output@ == old(output)@ + self.magic@.subrange(0, i as int),
            decreases 8 - i,
        {
            output.push(self.magic[i]);
            i += 1;
        }
        write_u32_le(output, self.width);
        write_u32_le(output, self.height);
        count += 16;

        // Write compression info
        output.push(self.compression_type.to_u8());
        output.push(self.quality);
        count += 2;

        // Write color format
        output.push(self.color_format.to_u8());
        count += 1;

        proof {
            assert(self.magic@.subrange(0, 8) =~= self.magic@);
            assert(output@ =~= old(output)@ + self.bytes());
        }
        count
    }

    /// Length of the header in bytes.
    pub fn len(&self) -> (n: usize)
        ensures
            n == 19,
            n == self.bytes().len(),
    {
        19
    }

    /// Read a header from the start of `input`.
    ///
    /// The fields are read in their order, and the first that cannot be read
    /// decides the error: input that ends early is an I/O failure, a wrong
    /// identifier is `InvalidIdentifier` with the eight bytes found, and a
    /// byte that stands for no compression type or no color format is
    /// `BadHeader`.
    pub fn read_from(input: &[u8]) -> (r: Result<Self, Error>)
        ensures
            match r {
                Ok(h) => header_status(input@) is Valid && h.matches_bytes(input@),
                Err(Error::IoError(kind)) => header_status(input@) is Truncated && kind
                    == IoFailure::UnexpectedEof,
                Err(Error::InvalidIdentifier(found)) => header_status(input@) is WrongMagic
                    && found@ == input@.subrange(0, 8),
                Err(Error::BadHeader) => header_status(input@) is BadField,
                Err(Error::CompressionError(_)) => false,
            },
    {
        if input.len() < 8 {
            return Err(Error::IoError(IoFailure::UnexpectedEof));
        }
        let expected = magic();
        let mut found: [u8; 8] = [0u8; 8];
        let mut same = true;
        let mut i: usize = 0;
        proof {
            assert(input@.subrange(0, 0) =~= magic_bytes().subrange(0, 0));
            assert(found@.subrange(0, 0) =~= input@.subrange(0, 0));
        }
        while i < 8
            invariant
                i <= 8,
                input@.len() >= 8,
                expected@ == magic_bytes(),
                found@.subrange(0, i as int) == input@.subrange(0, i as int),
                same <==> input@.subrange(0, i as int) == magic_bytes().subrange(0, i as int),
            decreases 8 - i,
        {
            found[i] = input[i];
            proof {
                assert(found@.subrange(0, i + 1) =~= input@.subrange(0, i + 1));
                assert(input@.subrange(0, i + 1) =~= input@.subrange(0, i as int).push(input@[i as int]));
                assert(magic_bytes().subrange(0, i + 1) =~= magic_bytes().subrange(0, i as int).push(
                    magic_bytes()[i as int],
                ));
                if input@.subrange(0, i + 1) == magic_bytes().subrange(0, i + 1) {
                    assert(input@.subrange(0, i + 1).drop_last() =~= input@.subrange(0, i as int));
                    assert(magic_bytes().subrange(0, i + 1).drop_last() =~= magic_bytes().subrange(
                        0,
                        i as int,
                    ));
                    assert(input@.subrange(0, i + 1).last() == input@[i as int]);
                    assert(magic_bytes().subrange(0, i + 1).last() == magic_bytes()[i as int]);
                }
            }
            if input[i] != expected[i] {
                same = false;
            }
            i += 1;
        }
        proof {
            assert(found@.subrange(0, 8) =~= found@);
            assert(magic_bytes().subrange(0, 8) =~= magic_bytes());
        }
        if !same {
            return Err(Error::InvalidIdentifier(found));
        }
        if input.len() < 17 {
            return Err(Error::IoError(IoFailure::UnexpectedEof));
        }
        let width: u32 = read_u32_le(input, 8);
        let height: u32 = read_u32_le(input, 12);
        let compression_type = match CompressionType::from_u8(input[16]) {
            Some(t) => t,
            None => {
                return Err(Error::BadHeader);
            },
        };
        if input.len() < 19 {
            return Err(Error::IoError(IoFailure::UnexpectedEof));
        }
        let quality: u8 = input[17];
        let color_format = match ColorFormat::from_u8(input[18]) {
            Some(f) => f,
            None => {
                return Err(Error::BadHeader);
            },
        };
        Ok(Header { magic: found, width, height, compression_type, quality, color_format })
    }
}

/// A header written out and read back is the header, whatever bytes follow
/// it.
pub proof fn lemma_header_roundtrip(h: Header, rest: Seq<u8>)
    requires
        h.magic@ == magic_bytes(),
    ensures
        h.bytes().len() == 19,
        header_status(h.bytes() + rest) is Valid,
        h.matches_bytes(h.bytes() + rest),
{
    let bytes = h.bytes() + rest;
    lemma_le_roundtrip(h.width);
    lemma_le_roundtrip(h.height);
    assert(bytes.subrange(0, 8) =~= magic_bytes());
    assert(bytes.subrange(8, 12) =~= le_bytes(h.width));
    assert(bytes.subrange(12, 16) =~= le_bytes(h.height));
}

/// The format of bytes in the image.
#[derive(Debug, Clone, Copy, PartialEq, Eq, Structural)]
pub enum ColorFormat {
    /// RGBA, 8 bits per channel
    Rgba8,
    /// RGB, 8 bits per channel
    Rgb8,
    /// Grayscale with alpha, 8 bits per channel
    GrayA8,
    /// Grayscale, 8 bits per channel
    Gray8,
}

impl ColorFormat {
    /// Number of color channels of the format, as a mathematical integer.
    pub open spec fn spec_channels(self) -> int {
        match self {
            ColorFormat::Rgba8 => 4,
            ColorFormat::Rgb8 => 3,
            ColorFormat::GrayA8 => 2,
            ColorFormat::Gray8 => 1,
        }
    }

    /// Whether the last channel of the format carries alpha.
    pub open spec fn has_alpha(self) -> bool {
        self == ColorFormat::Rgba8 || self == ColorFormat::GrayA8
    }

    /// The byte that stands for the format in a header.
    pub open spec fn spec_to_u8(self) -> u8 {
        match self {
            ColorFormat::Rgba8 => 0,
            ColorFormat::Rgb8 => 1,
            ColorFormat::GrayA8 => 2,
            ColorFormat::Gray8 => 3,
        }
    }

    /// Bits per color channel.
    ///
    /// Ex. `Rgba8` has `8bpc`
    pub fn bpc(&self) -> (r: u8)
        ensures
            r == 8,
    {
        match self {
            Self::Rgba8 => 8,
            Self::Rgb8 => 8,
            Self::GrayA8 => 8,
            Self::Gray8 => 8,
        }
    }

    /// Bits per pixel.
    ///
    /// Ex. `Rgba8` has `32bpp`
    pub fn bpp(&self) -> (r: u16)
        ensures
            r == 8 * self.spec_channels(),
    {
        match self {
            Self::Rgba8 => 32,
            Self::Rgb8 => 24,
            Self::GrayA8 => 16,
            Self::Gray8 => 8,
        }
    }

    /// Number of color channels.
    ///
    /// Ex. `Rgba8` has `4` channels
    pub fn channels(&self) -> (r: u16)
        ensures
            r == self.spec_channels(),
    {
        match self {
            Self::Rgba8 => 4,
            Self::Rgb8 => 3,
            Self::GrayA8 => 2,
            Self::Gray8 => 1,
        }
    }

    /// The channel in which alpha is contained, or [`None`] if there is none.
    ///
    /// Ex. `Rgba8`'s 3rd channel is alpha
    pub fn alpha_channel(&self) -> (r: Option<usize>)
        ensures
            self.has_alpha() ==> r == Some((self.spec_channels() - 1) as usize),
            !self.has_alpha() ==> r.is_none(),
    {
        match self {
            Self::Rgba8 => Some(3),
            Self::Rgb8 => None,
            Self::GrayA8 => Some(1),
            Self::Gray8 => None,
        }
    }

    /// Pixel Byte Count, the number of bytes per pixel.
    ///
    /// Convenience method over [`Self::bpp`]
    pub fn pbc(&self) -> (r: usize)
        ensures
            r == self.spec_channels(),
    {
        (self.bpp() / 8) as usize
    }

    /// The byte that stands for the format in a header.
    pub fn to_u8(self) -> (r: u8)
        ensures
            r == self.spec_to_u8(),
    {
        match self {
            Self::Rgba8 => 0,
            Self::Rgb8 => 1,
            Self::GrayA8 => 2,
            Self::Gray8 => 3,
        }
    }

    /// Reads a format back from its header byte. Bytes above 3 stand for no
    /// format.
    pub fn from_u8(value: u8) -> (r: Option<ColorFormat>)
        ensures
            value <= 3 <==> r.is_some(),
            r matches Some(f) ==> f.spec_to_u8() == value,
    {
        match value {
            0 => Some(Self::Rgba8),
            1 => Some(Self::Rgb8),
            2 => Some(Self::GrayA8),
            3 => Some(Self::Gray8),
            _ => None,
        }
    }
}

/// The type of compression used in the image
#[derive(Debug, Clone, Copy, PartialEq, Eq, Structural)]
pub enum CompressionType {
    /// No compression at all, raw bitmap
    Uncompressed,
    /// Lossless compression
    Lossless,
    /// Lossy Discrete Cosine Transform compression
    LossyDct,
}

impl CompressionType {
    /// The byte that stands for the compression type in a header.
    pub open spec fn spec_to_u8(self) -> u8 {
        match self {
            CompressionType::Uncompressed => 0,
            CompressionType::Lossless => 1,
            CompressionType::LossyDct => 2,
        }
    }

    /// The byte that stands for the compression type in a header.
    pub fn to_u8(self) -> (r: u8)
        ensures
            r == self.spec_to_u8(),
    {
        match self {
            CompressionType::Uncompressed => 0,
            CompressionType::Lossless => 1,
            CompressionType::LossyDct => 2,
        }
    }

    /// Reads a compression type back from its header byte. Bytes above 2 stand
    /// for no compression type.
    pub fn from_u8(value: u8) -> (r: Option<CompressionType>)
        ensures
            value <= 2 <==> r.is_some(),
            r matches Some(t) ==> t.spec_to_u8() == value,
    {
        match value {
            0 => Some(Self::Uncompressed),
            1 => Some(Self::Lossless),
            2 => Some(Self::LossyDct),
            _ => None,
        }
    }
}

} // verus!
