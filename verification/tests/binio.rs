use sqp::binio::BitReader;
use sqp::binio::BitWriter;
use sqp::binio::IoFailure;

#[test]
fn bits_fill_a_byte_from_its_lowest_place() {
    let mut writer = BitWriter::new();
    assert_eq!(writer.write_bit(1, 1), Ok(()));
    assert_eq!(writer.write_bit(0, 1), Ok(()));
    assert_eq!(writer.write_bit(0b11, 2), Ok(()));
    assert_eq!(writer.byte_size(), 1);
    writer.flush();
    assert_eq!(writer.into_bytes(), vec![0b0000_1101]);
}

#[test]
fn aligned_write_is_little_endian() {
    let mut writer = BitWriter::new();
    assert_eq!(writer.write_bit(0x1234_5678, 32), Ok(()));
    assert_eq!(writer.byte_size(), 4);
    assert_eq!(writer.into_bytes(), vec![0x78, 0x56, 0x34, 0x12]);
}

#[test]
fn write_of_bytes_is_little_endian() {
    let mut writer = BitWriter::new();
    assert_eq!(writer.write(0x0102_0304_0506_0708, 3), Ok(()));
    assert_eq!(writer.into_bytes(), vec![0x08, 0x07, 0x06]);
}

#[test]
fn unaligned_write_crosses_bytes() {
    let mut writer = BitWriter::new();
    assert_eq!(writer.write_bit(1, 1), Ok(()));
    assert_eq!(writer.write_bit(0xFF, 8), Ok(()));
    writer.flush();
    assert_eq!(writer.into_bytes(), vec![0xFF, 0x01]);
}

#[test]
fn write_keeps_only_the_bits_asked_for() {
    let mut writer = BitWriter::new();
    assert_eq!(writer.write_bit(0xFFFF, 3), Ok(()));
    writer.flush();
    assert_eq!(writer.into_bytes(), vec![0b0000_0111]);
}

#[test]
fn flush_on_a_boundary_emits_a_zero_byte() {
    let mut writer = BitWriter::new();
    writer.flush();
    assert_eq!(writer.byte_size(), 1);
    assert_eq!(writer.write_bit(0xAB, 8), Ok(()));
    writer.flush();
    assert_eq!(writer.into_bytes(), vec![0x00, 0xAB, 0x00]);
}

#[test]
fn bits_that_are_not_flushed_are_lost() {
    let mut writer = BitWriter::new();
    assert_eq!(writer.write_bit(0x3FF, 10), Ok(()));
    assert_eq!(writer.byte_size(), 2);
    assert_eq!(writer.into_bytes(), vec![0xFF]);
}

#[test]
fn writer_rejects_bad_lengths() {
    let mut writer = BitWriter::new();
    assert_eq!(writer.write_bit(1, 0), Err(IoFailure::InvalidInput));
    assert_eq!(writer.write_bit(1, 65), Err(IoFailure::InvalidInput));
    assert_eq!(writer.write(1, 0), Err(IoFailure::InvalidInput));
    assert_eq!(writer.write(1, 9), Err(IoFailure::InvalidInput));
    assert_eq!(writer.byte_size(), 0);
    assert_eq!(writer.into_bytes(), Vec::<u8>::new());
}

#[test]
fn reader_rejects_bad_lengths() {
    let input = [0xFFu8; 16];
    let mut reader = BitReader::new(&input);
    assert_eq!(reader.read_bit(0), Err(IoFailure::InvalidInput));
    assert_eq!(reader.read_bit(65), Err(IoFailure::InvalidInput));
    assert_eq!(reader.read(0), Err(IoFailure::InvalidInput));
    assert_eq!(reader.read(9), Err(IoFailure::InvalidInput));
    assert_eq!(reader.byte_offset(), 0);
    assert_eq!(reader.read_bit(4), Ok(0xF));
}

#[test]
fn reader_stops_at_the_end() {
    let input = [0xA5u8, 0x5A];
    let mut reader = BitReader::new(&input);
    assert_eq!(reader.read_bit(12), Ok(0xAA5));
    assert_eq!(reader.read_bit(5), Err(IoFailure::UnexpectedEof));
    assert_eq!(reader.byte_offset(), 1);
    assert_eq!(reader.read_bit(4), Ok(0x5));
    assert_eq!(reader.byte_offset(), 2);
    assert_eq!(reader.read_bit(1), Err(IoFailure::UnexpectedEof));
}

#[test]
fn reader_on_nothing_reads_nothing() {
    let input: [u8; 0] = [];
    let mut reader = BitReader::new(&input);
    assert_eq!(reader.byte_offset(), 0);
    assert_eq!(reader.read_bit(1), Err(IoFailure::UnexpectedEof));
    assert_eq!(reader.read(1), Err(IoFailure::UnexpectedEof));
}

#[test]
fn aligned_read_is_little_endian() {
    let input = [0x78u8, 0x56, 0x34, 0x12, 0xFF];
    let mut reader = BitReader::new(&input);
    assert_eq!(reader.read_bit(32), Ok(0x1234_5678));
    assert_eq!(reader.byte_offset(), 4);
    assert_eq!(reader.read(1), Ok(0xFF));
}

#[test]
fn read_of_bytes_off_a_boundary() {
    let input = [0b1010_1011u8, 0b0000_0001, 0x00];
    let mut reader = BitReader::new(&input);
    assert_eq!(reader.read_bit(1), Ok(1));
    assert_eq!(reader.read(1), Ok(0b1101_0101));
    assert_eq!(reader.byte_offset(), 1);
}

#[test]
fn full_width_values_round_trip() {
    let mut writer = BitWriter::new();
    assert_eq!(writer.write_bit(1, 1), Ok(()));
    assert_eq!(writer.write_bit(u64::MAX, 64), Ok(()));
    assert_eq!(writer.write_bit(0x0123_4567_89AB_CDEF, 64), Ok(()));
    writer.flush();
    let bytes = writer.into_bytes();
    assert_eq!(bytes.len(), 17);
    let mut reader = BitReader::new(&bytes);
    assert_eq!(reader.read_bit(1), Ok(1));
    assert_eq!(reader.read_bit(64), Ok(u64::MAX));
    assert_eq!(reader.read_bit(64), Ok(0x0123_4567_89AB_CDEF));
}

#[test]
fn bit_io_round_trip_of_many_writes() {
    let mut writes: Vec<(u64, usize)> = Vec::new();
    let mut seed: u64 = 0x9E37_79B9_7F4A_7C15;
    for _ in 0..2000 {
        seed = seed.wrapping_mul(6364136223846793005).wrapping_add(1442695040888963407);
        let len = (seed >> 58) as usize + 1;
        seed = seed.wrapping_mul(6364136223846793005).wrapping_add(1442695040888963407);
        let value = if len == 64 { seed } else { seed & ((1u64 << len) - 1) };
        writes.push((value, len));
    }
    let mut writer = BitWriter::new();
    for (value, len) in writes.iter() {
        assert_eq!(writer.write_bit(*value, *len), Ok(()));
    }
    writer.flush();
    let bytes = writer.into_bytes();
    let mut reader = BitReader::new(&bytes);
    for (value, len) in writes.iter() {
        assert_eq!(reader.read_bit(*len), Ok(*value));
    }
}
