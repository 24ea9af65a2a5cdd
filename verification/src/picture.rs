//! Functions and other utilities surrounding the [`SquishyPicture`] type.

use crate::binio::IoFailure;
use crate::compression::laws::lemma_chunk_index_sums;
use crate::compression::lossless::compress;
use crate::compression::lossless::CompressionError;
use crate::compression::lossless::CompressionInfo;
use crate::compression::lossless::decompress;
use crate::compression::lossless::index_bytes;
use crate::compression::lossless::index_fits;
use crate::compression::lossless::index_parsed;
use crate::compression::lzw::chunks_of;
use crate::compression::lzw::decompress_model;
use crate::compression::lzw::index_of;
use crate::compression::lzw::payload_of;
use crate::compression::lzw::total_compressed;
use crate::compression::lzw::total_raw;
use crate::header::ColorFormat;
use crate::header::CompressionType;
use crate::header::Header;
use crate::header::header_status;
use crate::header::HeaderStatus;
use crate::header::le_value;
use crate::header::magic;
use crate::header::magic_bytes;
use crate::operations::add_rows;
use crate::operations::add_rows_model;
use crate::operations::block_height;
use crate::operations::lemma_diff_rows_len;
use crate::operations::sub_rows;
use crate::operations::sub_rows_model;
use crate::varint::decode_varint_stream;
use crate::varint::encode_varint_stream;
use crate::varint::varint_stream;
use crate::varint::varint_stream_decoded;
use vstd::prelude::*;
use vstd::slice::slice_subrange;

verus! {

/// An error which occured while manipulating a [`SquishyPicture`].
#[derive(Debug)]
pub enum Error {
    /// The file signature was invalid. Must be "dangoimg". The field holds
    /// the eight bytes that were found in its place.
    InvalidIdentifier([u8; 8]),
    /// The compression type or the color format in the header is a value
    /// that stands for none.
    BadHeader,
    /// Reading came to the end of the input too early.
    IoError(IoFailure),
    /// There was an error while compressing or decompressing.
    CompressionError(CompressionError),
}

/// The basic Squishy Picture type for manipulation in-memory.
pub struct SquishyPicture {
    header: Header,
    bitmap: Vec<u8>,
}

/// What reading a file gives: a picture, or, for a file in the lossy mode,
/// its header and the quantised coefficients of its blocks, from which the
/// inverse block transform makes the pixels.
pub enum Decoded {
    /// The picture of a file that is not compressed or compressed without
    /// loss.
    Picture(SquishyPicture),
    /// The header and the coefficients of a file in the lossy mode.
    Coefficients(Header, Vec<i16>),
}

/// The number of bytes that the pixels of a picture take.
pub open spec fn pixel_bytes(width: u32, height: u32, format: ColorFormat) -> nat {
    width as nat * height as nat * format.spec_channels() as nat
}

/// A quality brought into the range from 1 to 100.
pub open spec fn clamped(level: u8) -> u8 {
    if level < 1 {
        1
    } else if level > 100 {
        100
    } else {
        level
    }
}

/// The quality that a picture gets. In the lossy mode it is the quality
/// asked for, brought into the range from 1 to 100. In every other mode a
/// quality does not apply and the picture's quality is 0, whatever was asked
/// for.
pub open spec fn quality_of(compression_type: CompressionType, quality: Option<u8>) -> u8 {
    if compression_type == CompressionType::LossyDct {
        match quality {
            Some(level) => clamped(level),
            None => 0,
        }
    } else {
        0
    }
}

/// The bytes that go to the LZW coder: the bitmap as it is, the bitmap after
/// the row transform, or the coefficients as varints.
pub open spec fn payload_model(header: Header, bitmap: Seq<u8>, coefficients: Seq<i16>) -> Seq<u8> {
    match header.compression_type {
        CompressionType::Uncompressed => bitmap,
        CompressionType::Lossless => sub_rows_model(
            header.width as nat,
            header.height as nat,
            header.color_format,
            bitmap,
        ),
        CompressionType::LossyDct => varint_stream(coefficients),
    }
}

/// The bytes of a file: the header, the index of the chunks of the payload,
/// and the chunks.
pub open spec fn container(header: Header, payload: Seq<u8>) -> Seq<u8> {
    header.bytes() + index_bytes(index_of(chunks_of(payload))) + payload_of(chunks_of(payload))
}

/// The index of a file agrees with the file and its payload: it is read
/// from behind the header, its raw sizes add up to the length of the
/// payload, and its compressed sizes to the number of bytes that follow it.
pub open spec fn file_index_sums(file: Seq<u8>, payload: Seq<u8>) -> bool {
    match index_parsed(file.skip(19)) {
        Some(index) => total_raw(index) == payload.len() && file.len() == 19 + 4 + 8 * index.len()
            + total_compressed(index),
        None => false,
    }
}

/// The compression type that a header byte stands for.
pub open spec fn mode_of(byte: u8) -> CompressionType {
    if byte == 0 {
        CompressionType::Uncompressed
    } else if byte == 1 {
        CompressionType::Lossless
    } else {
        CompressionType::LossyDct
    }
}

/// The color format that a header byte stands for.
pub open spec fn format_of(byte: u8) -> ColorFormat {
    if byte == 0 {
        ColorFormat::Rgba8
    } else if byte == 1 {
        ColorFormat::Rgb8
    } else if byte == 2 {
        ColorFormat::GrayA8
    } else {
        ColorFormat::Gray8
    }
}

/// What the bytes of a file hold.
pub enum Outcome {
    /// The pixels of a picture.
    Pixels(Seq<u8>),
    /// The coefficients of a picture in the lossy mode.
    Coefficients(Seq<i16>),
    /// The bytes end too early: in the header, in the index, in the chunks,
    /// or with fewer pixels than the header says.
    Truncated,
    /// The bytes do not start with the identifier.
    WrongMagic,
    /// The compression type or the color format stands for none.
    BadField,
}

/// What the bytes of a file hold once header and index are read and the
/// chunks decoded to `payload`.
pub open spec fn payload_outcome(input: Seq<u8>, payload: Seq<u8>) -> Outcome {
    let width = le_value(input.subrange(8, 12));
    let height = le_value(input.subrange(12, 16));
    let format = format_of(input[18]);
    let needed = width * height * format.spec_channels() as nat;
    match mode_of(input[16]) {
        CompressionType::Uncompressed => if payload.len() < needed {
            Outcome::Truncated
        } else {
            Outcome::Pixels(payload.subrange(0, needed as int))
        },
        CompressionType::Lossless => if payload.len() < needed {
            Outcome::Truncated
        } else {
            Outcome::Pixels(add_rows_model(width, height, format, payload))
        },
        CompressionType::LossyDct => Outcome::Coefficients(varint_stream_decoded(payload)),
    }
}

/// The payload of a file whose header is in order: what its chunks decode
/// to, or nothing where the bytes end before the index or the chunks do.
pub open spec fn file_payload(input: Seq<u8>) -> Option<Seq<u8>> {
    let after_header = input.skip(19);
    match index_parsed(after_header) {
        None => None,
        Some(index) => decompress_model(after_header.skip(4 + 8 * index.len() as int), index),
    }
}

/// What the bytes of a file hold.
pub open spec fn decode_outcome(input: Seq<u8>) -> Outcome {
    match header_status(input) {
        HeaderStatus::Truncated => Outcome::Truncated,
        HeaderStatus::WrongMagic => Outcome::WrongMagic,
        HeaderStatus::BadField => Outcome::BadField,
        HeaderStatus::Valid => match file_payload(input) {
            None => Outcome::Truncated,
            Some(payload) => payload_outcome(input, payload),
        },
    }
}

impl SquishyPicture {
    /// The header of the picture.
    pub closed spec fn header(&self) -> Header {
        self.header
    }

    /// The pixels of the picture: row after row, the channels of a pixel
    /// side by side.
    pub closed spec fn pixels(&self) -> Seq<u8> {
        self.bitmap@
    }

    /// The picture is in order: its header starts with the identifier, it has
    /// as many bytes as its pixels take, and its quality lies between 1 and
    /// 100 in the lossy mode and is 0 in every other mode.
    pub open spec fn wf(&self) -> bool {
        &&& self.header().magic@ == magic_bytes()
        &&& self.pixels().len() == pixel_bytes(
            self.header().width,
            self.header().height,
            self.header().color_format,
        )
        &&& (self.header().compression_type == CompressionType::LossyDct ==> 1
            <= self.header().quality <= 100)
        &&& (self.header().compression_type != CompressionType::LossyDct
            ==> self.header().quality == 0)
    }

    /// Create a picture from raw bytes in a particular [`ColorFormat`].
    ///
    /// In the lossy mode the quality must be given; one outside the range
    /// from 1 to 100 is moved to the nearest end of the range. In every other
    /// mode a quality does not apply: whatever is given, the picture's
    /// quality is 0. `bitmap` holds `width * height` pixels of the format.
    pub fn from_raw(
        width: u32,
        height: u32,
        color_format: ColorFormat,
        compression_type: CompressionType,
        quality: Option<u8>,
        bitmap: Vec<u8>,
    ) -> (picture: Self)
        requires
            !(quality.is_none() && compression_type == CompressionType::LossyDct),
            bitmap@.len() == pixel_bytes(width, height, color_format),
        ensures
            picture.wf(),
            picture.pixels() == bitmap@,
            picture.header().width == width,
            picture.header().height == height,
            picture.header().color_format == color_format,
            picture.header().compression_type == compression_type,
            picture.header().quality == quality_of(compression_type, quality),
    {
        let header = Header {
            magic: magic(),
            width,
            height,
            compression_type,
            quality: match compression_type {
                CompressionType::LossyDct => match quality {
                    Some(level) => if level < 1 {
                        1
                    } else if level > 100 {
                        100
                    } else {
                        level
                    },
                    None => 0,
                },
                _ => 0,
            },
            color_format,
        };

        Self { header, bitmap }
    }

    /// Convenience method over [`SquishyPicture::from_raw`] which creates a
    /// lossy image with a given quality.
    pub fn from_raw_lossy(
        width: u32,
        height: u32,
        color_format: ColorFormat,
        quality: u8,
        bitmap: Vec<u8>,
    ) -> (picture: Self)
        requires
            bitmap@.len() == pixel_bytes(width, height, color_format),
        ensures
            picture.wf(),
            picture.pixels() == bitmap@,
            picture.header().width == width,
            picture.header().height == height,
            picture.header().color_format == color_format,
            picture.header().compression_type == CompressionType::LossyDct,
            picture.header().quality == clamped(quality),
    {
        Self::from_raw(
            width,
            height,
            color_format,
            CompressionType::LossyDct,
            Some(quality),
            bitmap,
        )
    }

    /// Convenience method over [`SquishyPicture::from_raw`] which creates a
    /// lossless image.
    pub fn from_raw_lossless(
        width: u32,
        height: u32,
        color_format: ColorFormat,
        bitmap: Vec<u8>,
    ) -> (picture: Self)
        requires
            bitmap@.len() == pixel_bytes(width, height, color_format),
        ensures
            picture.wf(),
            picture.pixels() == bitmap@,
            picture.header().width == width,
            picture.header().height == height,
            picture.header().color_format == color_format,
            picture.header().compression_type == CompressionType::Lossless,
            picture.header().quality == 0,
    {
        Self::from_raw(width, height, color_format, CompressionType::Lossless, None, bitmap)
    }

    /// Encode the image into the bytes of a file.
    ///
    /// `coefficients` are the quantised coefficients of the picture's
    /// blocks, as the block transform gives them. They are read in the lossy
    /// mode only, where they take the place of the pixels.
    ///
    /// The payload must not be longer than a chunk index can say, and a
    /// payload without a byte is refused with `NoChunks`. The file starts
    /// with the 19 bytes of the header; the index behind them lists raw
    /// sizes that add up to the payload's length and compressed sizes that
    /// add up to the bytes behind the index.
    pub fn encode(&self, coefficients: &[i16]) -> (r: Result<Vec<u8>, Error>)
        requires
            self.wf(),
            payload_model(self.header(), self.pixels(), coefficients@).len() <= u32::MAX,
        ensures
            r is Err <==> payload_model(self.header(), self.pixels(), coefficients@).len() == 0,
            r matches Err(e) ==> e matches Error::CompressionError(CompressionError::NoChunks),
            r matches Ok(out) ==> {
                &&& out@ == container(
                    self.header(),
                    payload_model(self.header(), self.pixels(), coefficients@),
                )
                &&& out@.len() >= 19
                &&& out@.subrange(0, 19) == self.header().bytes()
                &&& file_index_sums(
                    out@,
                    payload_model(self.header(), self.pixels(), coefficients@),
                )
            },
    {
        let mut output: Vec<u8> = Vec::new();

        // Write out the header
        let _header_size = self.header.write_into(&mut output);

        // Based on the compression type, modify the data accordingly
        let modified_data: Vec<u8> = match self.header.compression_type {
            CompressionType::Uncompressed => self.bitmap.clone(),
            CompressionType::Lossless => {
                sub_rows(
                    self.header.width,
                    self.header.height,
                    self.header.color_format,
                    self.bitmap.as_slice(),
                )
            },
            CompressionType::LossyDct => encode_varint_stream(coefficients),
        };

        // Compress the final image data using the basic LZW scheme
        let (compressed_data, compression_info) = match compress(modified_data.as_slice()) {
            Ok(parts) => parts,
            Err(_) => {
                return Err(Error::CompressionError(CompressionError::NoChunks));
            },
        };
        proof {
            lemma_chunk_index_sums(modified_data@);
            assert(index_fits(compression_info@));
        }

        // Write out compression info
        let _index_size = compression_info.write_into(&mut output);

        // Write out compressed data
        output.extend_from_slice(compressed_data.as_slice());

        proof {
            assert(output@.subrange(0, 19) =~= self.header().bytes());
            assert(output@ == container(self.header(), modified_data@));
            crate::laws::lemma_file_index_sums(self.header(), modified_data@);
        }
        Ok(output)
    }

    /// Decode the image from the bytes of a file.
    ///
    /// A file in the lossy mode gives its header and coefficients, and these
    /// are the coefficients that the file was made of; any other gives the
    /// picture. The decoded payload is cut to the bytes that the
    /// pixels take, and a payload with fewer bytes than that is refused as
    /// input that ended too early. Outside the lossy mode the quality byte
    /// of the file is not read: the picture's quality is 0.
    pub fn decode(input: &[u8]) -> (r: Result<Decoded, Error>)
        ensures
            match decode_outcome(input@) {
                Outcome::Pixels(pixels) => r matches Ok(Decoded::Picture(picture)) && picture.wf()
                    && picture.header().describes(input@) && picture.pixels() == pixels,
                Outcome::Coefficients(values) => r matches Ok(Decoded::Coefficients(header, found))
                    && header.matches_bytes(input@) && found@ == values && forall|given: Seq<i16>|
                    file_payload(input@) == Some(#[trigger] varint_stream(given)) ==> found@
                        == given,
                Outcome::Truncated => r matches Err(Error::IoError(kind)) && kind
                    == IoFailure::UnexpectedEof,
                Outcome::WrongMagic => r matches Err(Error::InvalidIdentifier(found)) && found@
                    == input@.subrange(0, 8),
                Outcome::BadField => r matches Err(Error::BadHeader),
            },
    {
        let header = match Header::read_from(input) {
            Ok(header) => header,
            Err(error) => {
                return Err(error);
            },
        };
        let after_header = slice_subrange(input, 19, input.len());
        proof {
            assert(after_header@ =~= input@.skip(19));
        }

        let compression_info = match CompressionInfo::read_from(after_header) {
            Ok(info) => info,
            Err(kind) => {
                return Err(Error::IoError(kind));
            },
        };
        let index_size: usize = 4 + 8 * compression_info.chunks.len();
        let body = slice_subrange(after_header, index_size, after_header.len());
        proof {
            assert(body@ =~= after_header@.skip(index_size as int));
        }

        let pre_bitmap = match decompress(body, &compression_info) {
            Ok(bytes) => bytes,
            Err(kind) => {
                return Err(Error::IoError(kind));
            },
        };
        proof {
            assert(mode_of(input@[16]) == header.compression_type);
            assert(format_of(input@[18]) == header.color_format);
        }

        let pbc: usize = header.color_format.pbc();
        proof {
            assert(header.width as int * header.height as int <= 0xFFFF_FFFF * 0xFFFF_FFFF)
                by (nonlinear_arith)
                requires
                    0 <= header.width as int <= 0xFFFF_FFFF,
                    0 <= header.height as int <= 0xFFFF_FFFF,
            ;
        }
        let pixel_count: u128 = (header.width as u128) * (header.height as u128);
        proof {
            assert(pixel_count as int * pbc as int <= 0xFFFF_FFFF * 0xFFFF_FFFF * 4)
                by (nonlinear_arith)
                requires
                    0 <= pixel_count as int <= 0xFFFF_FFFF * 0xFFFF_FFFF,
                    0 <= pbc as int <= 4,
            ;
        }
        let needed: u128 = pixel_count * (pbc as u128);

        let bitmap: Vec<u8> = match header.compression_type {
            CompressionType::Uncompressed => {
                if (pre_bitmap.len() as u128) < needed {
                    return Err(Error::IoError(IoFailure::UnexpectedEof));
                }
                let mut bitmap = pre_bitmap;
                bitmap.truncate(needed as usize);
                bitmap
            },
            CompressionType::Lossless => {
                if (pre_bitmap.len() as u128) < needed {
                    return Err(Error::IoError(IoFailure::UnexpectedEof));
                }
                let mut bitmap = add_rows(
                    header.width,
                    header.height,
                    header.color_format,
                    pre_bitmap.as_slice(),
                );
                proof {
                    lemma_added_len(
                        header.width as nat,
                        header.height as nat,
                        header.color_format,
                        pre_bitmap@,
                    );
                }
                bitmap.truncate(needed as usize);
                bitmap
            },
            CompressionType::LossyDct => {
                return Ok(
                    Decoded::Coefficients(header, decode_varint_stream(pre_bitmap.as_slice())),
                );
            },
        };

        let header = Header {
            magic: header.magic,
            width: header.width,
            height: header.height,
            compression_type: header.compression_type,
            quality: 0,
            color_format: header.color_format,
        };
        Ok(Decoded::Picture(Self { header, bitmap }))
    }

    /// Get the underlying raw buffer as a reference
    pub fn as_raw(&self) -> (bitmap: &Vec<u8>)
        ensures
            bitmap@ == self.pixels(),
    {
        &self.bitmap
    }

    /// Get the underlying raw buffer
    pub fn into_raw(self) -> (bitmap: Vec<u8>)
        ensures
            bitmap@ == self.pixels(),
    {
        self.bitmap
    }

    /// The width of the image in pixels
    pub fn width(&self) -> (w: u32)
        ensures
            w == self.header().width,
    {
        self.header.width
    }

    /// The height of the image in pixels
    pub fn height(&self) -> (h: u32)
        ensures
            h == self.header().height,
    {
        self.header.height
    }

    /// The format of the image's pixels
    pub fn color_format(&self) -> (f: ColorFormat)
        ensures
            f == self.header().color_format,
    {
        self.header.color_format
    }

    /// The type of compression that the image is stored with
    pub fn compression_type(&self) -> (t: CompressionType)
        ensures
            t == self.header().compression_type,
    {
        self.header.compression_type
    }

    /// The quality of the image: 0 where none was given
    pub fn quality(&self) -> (q: u8)
        ensures
            q == self.header().quality,
    {
        self.header.quality
    }
}

/// The inverse row transform gives as many bytes as the pixels take.
pub proof fn lemma_added_len(width: nat, height: nat, format: ColorFormat, data: Seq<u8>)
    requires
        data.len() >= width * height * format.spec_channels() as nat,
    ensures
        add_rows_model(width, height, format, data).len() == width * height
            * format.spec_channels() as nat,
{
    let pbc = format.spec_channels() as nat;
    let line = width * pbc;
    let stored = crate::operations::interleaved(format, width * height, data);
    assert(height * line == width * height * pbc) by (nonlinear_arith)
        requires
            line == width * pbc,
    ;
    crate::operations::lemma_sum_rows_len(stored, line, block_height(height), height);
}

/// The forward row transform keeps the number of bytes.
pub proof fn lemma_subbed_len(width: nat, height: nat, format: ColorFormat, input: Seq<u8>)
    requires
        input.len() == width * height * format.spec_channels() as nat,
    ensures
        sub_rows_model(width, height, format, input).len() == input.len(),
{
    let pbc = format.spec_channels() as nat;
    let line = width * pbc;
    assert(height * line == width * height * pbc) by (nonlinear_arith)
        requires
            line == width * pbc,
    ;
    lemma_diff_rows_len(input, line, block_height(height), height);
    if format.has_alpha() {
        let colors = (pbc - 1) as nat;
        let pixels = width * height;
        assert(pixels * colors + pixels == pixels * pbc) by (nonlinear_arith)
            requires
                pbc == colors + 1,
        ;
    }
}

} // verus!
