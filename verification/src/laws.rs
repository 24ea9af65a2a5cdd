//! What encoding and decoding owe each other: a file that was encoded
//! decodes to the picture it was made from.

use crate::compression::laws::lemma_chunk_index_sums;
use crate::compression::laws::lemma_lzw_roundtrip;
use crate::compression::lossless::index_bytes;
use crate::compression::lossless::index_fits;
use crate::compression::lossless::index_parsed;
use crate::compression::lossless::lemma_index_roundtrip;
use crate::compression::lzw::chunks_of;
use crate::compression::lzw::index_of;
use crate::compression::lzw::payload_of;
use crate::compression::lzw::total_compressed;
use crate::compression::lzw::total_raw;
use crate::header::CompressionType;
use crate::header::Header;
use crate::header::header_status;
use crate::header::lemma_header_roundtrip;
use crate::header::magic_bytes;
use crate::operations::lemma_rows_roundtrip;
use crate::picture::container;
use crate::picture::decode_outcome;
use crate::picture::file_index_sums;
use crate::picture::file_payload;
use crate::picture::lemma_subbed_len;
use crate::picture::Outcome;
use crate::picture::payload_model;
use crate::picture::payload_outcome;
use vstd::prelude::*;

verus! {

/// Reading the bytes of a file gets through header, index and chunks to the
/// payload that the file was made of.
pub proof fn lemma_container_decodes(header: Header, payload: Seq<u8>)
    requires
        header.magic@ == magic_bytes(),
        payload.len() <= u32::MAX,
    ensures
        header_status(container(header, payload)) is Valid,
        file_payload(container(header, payload)) == Some(payload),
        decode_outcome(container(header, payload)) == payload_outcome(
            container(header, payload),
            payload,
        ),
        header.matches_bytes(container(header, payload)),
        container(header, payload).subrange(0, 19) == header.bytes(),
{
    let chunks = chunks_of(payload);
    let index = index_of(chunks);
    let tail = index_bytes(index) + payload_of(chunks);
    let input = container(header, payload);
    assert(input =~= header.bytes() + tail);
    lemma_header_roundtrip(header, tail);
    lemma_chunk_index_sums(payload);
    assert(index_fits(index));
    lemma_index_roundtrip(index, payload_of(chunks));
    assert(input.skip(19) =~= tail);
    assert(tail.skip(4 + 8 * index.len() as int) =~= payload_of(chunks));
    lemma_lzw_roundtrip(payload);
    assert(input.subrange(0, 19) =~= header.bytes());
}

/// Chunk index integrity, over the bytes of a file: the index that the file
/// holds behind its header is the index of its payload's chunks; its raw
/// sizes add up to the length of the payload, and its compressed sizes to
/// the number of bytes that follow the index.
pub proof fn lemma_file_index_sums(header: Header, payload: Seq<u8>)
    requires
        header.magic@ == magic_bytes(),
        payload.len() <= u32::MAX,
    ensures
        index_parsed(container(header, payload).skip(19)) == Some(index_of(chunks_of(payload))),
        total_raw(index_of(chunks_of(payload))) == payload.len(),
        container(header, payload).len() == 19 + 4 + 8 * index_of(chunks_of(payload)).len()
            + total_compressed(index_of(chunks_of(payload))),
        file_index_sums(container(header, payload), payload),
{
    let chunks = chunks_of(payload);
    let index = index_of(chunks);
    let tail = index_bytes(index) + payload_of(chunks);
    let input = container(header, payload);
    assert(input =~= header.bytes() + tail);
    lemma_header_roundtrip(header, tail);
    lemma_chunk_index_sums(payload);
    assert(index_fits(index));
    lemma_index_roundtrip(index, payload_of(chunks));
    assert(input.skip(19) =~= tail);
}

/// Round trip, uncompressed: the file of a picture that is stored as it is
/// decodes to the picture's pixels, under the picture's header.
pub proof fn lemma_roundtrip_uncompressed(header: Header, pixels: Seq<u8>, coefficients: Seq<i16>)
    requires
        header.magic@ == magic_bytes(),
        header.compression_type == CompressionType::Uncompressed,
        pixels.len() == header.width as nat * header.height as nat
            * header.color_format.spec_channels() as nat,
        pixels.len() <= u32::MAX,
    ensures
        decode_outcome(container(header, payload_model(header, pixels, coefficients)))
            == Outcome::Pixels(pixels),
        header.matches_bytes(container(header, payload_model(header, pixels, coefficients))),
{
    let payload = payload_model(header, pixels, coefficients);
    lemma_container_decodes(header, payload);
    assert(payload.subrange(0, pixels.len() as int) =~= pixels);
}

/// Round trip, lossless: the file of a picture that is stored without loss
/// decodes to the picture's pixels, byte for byte, under the picture's
/// header.
pub proof fn lemma_roundtrip_lossless(header: Header, pixels: Seq<u8>, coefficients: Seq<i16>)
    requires
        header.magic@ == magic_bytes(),
        header.compression_type == CompressionType::Lossless,
        pixels.len() == header.width as nat * header.height as nat
            * header.color_format.spec_channels() as nat,
        pixels.len() <= u32::MAX,
    ensures
        decode_outcome(container(header, payload_model(header, pixels, coefficients)))
            == Outcome::Pixels(pixels),
        header.matches_bytes(container(header, payload_model(header, pixels, coefficients))),
{
    let payload = payload_model(header, pixels, coefficients);
    lemma_subbed_len(header.width as nat, header.height as nat, header.color_format, pixels);
    lemma_container_decodes(header, payload);
    lemma_rows_roundtrip(header.width as nat, header.height as nat, header.color_format, pixels);
}

} // verus!
