use sqp::binio::IoFailure;
use sqp::compression::lossless::compress;
use sqp::compression::lossless::compress_lzw;
use sqp::compression::lossless::decompress;
use sqp::compression::lossless::decompress_lzw;
use sqp::compression::lossless::ChunkInfo;
use sqp::compression::lossless::CompressionError;
use sqp::compression::lossless::CompressionInfo;

#[test]
fn one_byte_is_one_code() {
    let (count, payload, carry) = compress_lzw(&[0x41], Vec::new());
    assert_eq!(count, 1);
    assert_eq!(payload, vec![0x82, 0x00, 0x00]);
    assert_eq!(carry, Vec::<u8>::new());
}

#[test]
fn repeated_bytes_use_the_new_entry() {
    // "AAA": A goes out, AA becomes code 257, then AA goes out as 257.
    let (count, payload, carry) = compress_lzw(&[0x41, 0x41, 0x41], Vec::new());
    assert_eq!(count, 3);
    assert_eq!(payload, vec![0x82, 0x00, 0x02, 0x02, 0x00]);
    assert_eq!(carry, Vec::<u8>::new());
}

#[test]
fn the_seed_is_not_coded() {
    let with_seed = compress_lzw(&[1, 2, 3, 1, 2, 3], vec![9]);
    let without = compress_lzw(&[1, 2, 3, 1, 2, 3], Vec::new());
    assert_eq!(with_seed, without);
}

#[test]
fn nothing_gives_an_empty_chunk() {
    let (count, payload, carry) = compress_lzw(&[], Vec::new());
    assert_eq!(count, 0);
    assert_eq!(payload, vec![0x00]);
    assert_eq!(carry, Vec::<u8>::new());
}

#[test]
fn compress_of_nothing_is_no_chunks() {
    assert!(matches!(compress(&[]), Err(CompressionError::NoChunks)));
}

#[test]
fn compress_records_the_chunk() {
    let (payload, info) = compress(&[0x41]).unwrap();
    assert_eq!(payload, vec![0x82, 0x00, 0x00]);
    assert_eq!(info.chunk_count, 1);
    assert_eq!(info.chunks.len(), 1);
    assert_eq!(info.chunks[0].size_compressed, 3);
    assert_eq!(info.chunks[0].size_raw, 1);
}

#[test]
fn decompress_lzw_reads_codes() {
    assert_eq!(decompress_lzw(&[0x82, 0x00, 0x00], 1).unwrap(), vec![0x41]);
    assert_eq!(
        decompress_lzw(&[0x82, 0x00, 0x02, 0x02, 0x00], 3).unwrap(),
        vec![0x41, 0x41, 0x41]
    );
}

#[test]
fn decompress_lzw_of_nothing_is_nothing() {
    assert_eq!(decompress_lzw(&[], 0).unwrap(), Vec::<u8>::new());
    assert_eq!(decompress_lzw(&[0x00], 0).unwrap(), Vec::<u8>::new());
}

#[test]
fn no_code_starts_in_the_last_byte() {
    // The first code ends in the last byte; the second would start in it.
    assert_eq!(decompress_lzw(&[0x82, 0x00], 1).unwrap(), vec![0x41]);
    assert_eq!(decompress_lzw(&[0x82, 0x00, 0x84], 2).unwrap(), vec![0x41]);
    assert_eq!(decompress_lzw(&[0x82], 1).unwrap(), Vec::<u8>::new());
}

#[test]
fn a_code_cut_short_ends_the_chunk() {
    // A flag for 18 bits, with 15 bits left.
    assert_eq!(decompress_lzw(&[0x01, 0x00], 0).unwrap(), Vec::<u8>::new());
    // With 23 bits left the code is read: a wide code may be small.
    assert_eq!(decompress_lzw(&[0x01, 0x00, 0x00], 0).unwrap(), vec![0x00]);
}

#[test]
fn bad_element_is_reported() {
    // Code 300 where the dictionary ends at 255.
    let result = decompress_lzw(&[0x58, 0x02, 0x00], 4);
    match result {
        Err(CompressionError::BadElement(partial, code, offset)) => {
            assert_eq!(partial, Vec::<u8>::new());
            assert_eq!(code, 300);
            assert_eq!(offset, 2);
        }
        other => panic!("expected a bad element, got {:?}", other),
    }
}

#[test]
fn bad_element_keeps_what_was_decoded() {
    // Code 0x41, then code 300 where the dictionary ends at 256.
    let result = decompress_lzw(&[0x82, 0x00, 0x58, 0x02, 0x00], 4);
    match result {
        Err(CompressionError::BadElement(partial, code, offset)) => {
            assert_eq!(partial, vec![0x41]);
            assert_eq!(code, 300);
            assert_eq!(offset, 4);
        }
        other => panic!("expected a bad element, got {:?}", other),
    }
}

#[test]
fn code_256_is_the_decoders_own_entry() {
    // Code 0x41, then code 256, which stands for the zero byte and 0x41.
    assert_eq!(
        decompress_lzw(&[0x82, 0x00, 0x00, 0x02, 0x00], 3).unwrap(),
        vec![0x41, 0x00, 0x41]
    );
}

#[test]
fn a_bad_chunk_is_padded_with_zeros() {
    let info = CompressionInfo {
        chunk_count: 2,
        chunks: vec![
            ChunkInfo { size_compressed: 5, size_raw: 4 },
            ChunkInfo { size_compressed: 3, size_raw: 1 },
        ],
    };
    let input = [0x82, 0x00, 0x58, 0x02, 0x00, 0x84, 0x00, 0x00];
    assert_eq!(decompress(&input, &info), Ok(vec![0x41, 0, 0, 0, 0x42]));
}

#[test]
fn a_bad_chunk_that_is_long_enough_is_not_padded() {
    let info = CompressionInfo {
        chunk_count: 1,
        chunks: vec![ChunkInfo { size_compressed: 5, size_raw: 0 }],
    };
    let input = [0x82, 0x00, 0x58, 0x02, 0x00];
    assert_eq!(decompress(&input, &info), Ok(vec![0x41]));
}

#[test]
fn decompress_needs_every_chunk() {
    let info = CompressionInfo {
        chunk_count: 1,
        chunks: vec![ChunkInfo { size_compressed: 4, size_raw: 1 }],
    };
    assert_eq!(decompress(&[0x82, 0x00, 0x00], &info), Err(IoFailure::UnexpectedEof));
}

#[test]
fn decompress_of_no_chunks_is_nothing() {
    let info = CompressionInfo::default();
    assert_eq!(info.chunk_count, 0);
    assert_eq!(decompress(&[1, 2, 3], &info), Ok(Vec::<u8>::new()));
}

fn noise(len: usize, mut seed: u64) -> Vec<u8> {
    let mut out = Vec::with_capacity(len);
    for _ in 0..len {
        seed = seed.wrapping_mul(6364136223846793005).wrapping_add(1442695040888963407);
        out.push((seed >> 56) as u8);
    }
    out
}

fn round_trip(data: &[u8]) -> CompressionInfo {
    let (payload, info) = compress(data).unwrap();
    assert_eq!(decompress(&payload, &info).unwrap(), data);
    let raw: usize = info.chunks.iter().map(|c| c.size_raw).sum();
    let compressed: usize = info.chunks.iter().map(|c| c.size_compressed).sum();
    assert_eq!(raw, data.len());
    assert_eq!(compressed, payload.len());
    assert_eq!(info.chunk_count, info.chunks.len());
    info
}

#[test]
fn lzw_round_trip_small() {
    round_trip(&[0]);
    round_trip(&[0, 0]);
    round_trip(&[0, 1, 0, 1, 0, 1, 0, 1, 0]);
    round_trip(b"TOBEORNOTTOBEORTOBEORNOT");
    round_trip(&[7u8; 1000]);
    round_trip(&noise(5000, 1));
}

#[test]
fn lzw_round_trip_with_wide_codes() {
    let data = noise(200_000, 2);
    let info = round_trip(&data);
    assert_eq!(info.chunk_count, 1);
}

#[test]
fn lzw_round_trip_over_several_chunks() {
    let data = noise(600_000, 3);
    let info = round_trip(&data);
    assert!(info.chunk_count >= 2);
    for chunk in info.chunks.iter() {
        assert!(chunk.size_raw >= 1);
    }
}

#[test]
fn a_full_dictionary_leaves_a_byte_over() {
    let data = noise(600_000, 3);
    let (count, _, carry) = compress_lzw(&data, Vec::new());
    assert!(count < data.len());
    assert_eq!(carry, vec![data[count]]);
}

#[test]
fn index_bytes_are_little_endian() {
    let info = CompressionInfo {
        chunk_count: 2,
        chunks: vec![
            ChunkInfo { size_compressed: 0x0102_0304, size_raw: 5 },
            ChunkInfo { size_compressed: 6, size_raw: 0xFFFF_FFFF },
        ],
    };
    let mut out = vec![0xEE];
    assert_eq!(info.write_into(&mut out), 20);
    assert_eq!(
        out,
        vec![
            0xEE, 2, 0, 0, 0, 4, 3, 2, 1, 5, 0, 0, 0, 6, 0, 0, 0, 0xFF, 0xFF, 0xFF, 0xFF
        ]
    );
    let back = CompressionInfo::read_from(&out[1..]).unwrap();
    assert_eq!(back.chunk_count, 2);
    assert_eq!(back.chunks[0].size_compressed, 0x0102_0304);
    assert_eq!(back.chunks[0].size_raw, 5);
    assert_eq!(back.chunks[1].size_compressed, 6);
    assert_eq!(back.chunks[1].size_raw, 0xFFFF_FFFF);
}

#[test]
fn index_that_ends_early_is_refused() {
    assert!(matches!(CompressionInfo::read_from(&[1, 0, 0]), Err(IoFailure::UnexpectedEof)));
    assert!(matches!(
        CompressionInfo::read_from(&[1, 0, 0, 0, 1, 2, 3, 4, 5, 6, 7]),
        Err(IoFailure::UnexpectedEof)
    ));
    assert!(matches!(
        CompressionInfo::read_from(&[0xFF, 0xFF, 0xFF, 0xFF]),
        Err(IoFailure::UnexpectedEof)
    ));
    assert_eq!(CompressionInfo::read_from(&[0, 0, 0, 0, 9]).unwrap().chunks.len(), 0);
}
