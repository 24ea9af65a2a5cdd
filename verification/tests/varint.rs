use sqp::varint::decode_varint_stream;
use sqp::varint::encode_varint_stream;
use sqp::varint::take_decoded;

#[test]
fn small_numbers_take_one_byte() {
    assert_eq!(encode_varint_stream(&[0]), vec![0]);
    assert_eq!(encode_varint_stream(&[-1]), vec![1]);
    assert_eq!(encode_varint_stream(&[1]), vec![2]);
    assert_eq!(encode_varint_stream(&[-2]), vec![3]);
    assert_eq!(encode_varint_stream(&[63]), vec![126]);
    assert_eq!(encode_varint_stream(&[-64]), vec![127]);
}

#[test]
fn larger_numbers_take_more_bytes() {
    assert_eq!(encode_varint_stream(&[64]), vec![0x80, 0x01]);
    assert_eq!(encode_varint_stream(&[-65]), vec![0x81, 0x01]);
    assert_eq!(encode_varint_stream(&[300]), vec![0xD8, 0x04]);
    assert_eq!(encode_varint_stream(&[i16::MAX]), vec![0xFE, 0xFF, 0x03]);
    assert_eq!(encode_varint_stream(&[i16::MIN]), vec![0xFF, 0xFF, 0x03]);
}

#[test]
fn streams_are_laid_end_to_end() {
    assert_eq!(encode_varint_stream(&[]), Vec::<u8>::new());
    assert_eq!(encode_varint_stream(&[1, 64, -1]), vec![2, 0x80, 0x01, 1]);
}

#[test]
fn streams_are_read_back() {
    assert_eq!(decode_varint_stream(&[]), Vec::<i16>::new());
    assert_eq!(decode_varint_stream(&[2, 0x80, 0x01, 1]), vec![1, 64, -1]);
    assert_eq!(decode_varint_stream(&[0xFF, 0xFF, 0x03, 0xFE, 0xFF, 0x03]), vec![i16::MIN, i16::MAX]);
}

#[test]
fn reading_stops_at_what_is_no_number() {
    // A byte that says another follows, at the end.
    assert_eq!(decode_varint_stream(&[2, 0x80]), vec![1]);
    // A number too large for 16 bits.
    assert_eq!(decode_varint_stream(&[4, 0x80, 0x80, 0x04, 6]), vec![2]);
}

#[test]
fn every_coefficient_round_trips() {
    let all: Vec<i16> = (i16::MIN..=i16::MAX).collect();
    assert_eq!(decode_varint_stream(&encode_varint_stream(&all)), all);
}

#[test]
fn take_decoded_moves_on() {
    let mut output = vec![5i16];
    assert_eq!(take_decoded(&mut output, 10, 4, Some((-7, 2))), Some(12));
    assert_eq!(output, vec![5, -7]);
    assert_eq!(take_decoded(&mut output, 12, 2, Some((9, 2))), Some(14));
    assert_eq!(output, vec![5, -7, 9]);
}

#[test]
fn take_decoded_stops() {
    let mut output = vec![5i16];
    assert_eq!(take_decoded(&mut output, 10, 4, None), None);
    assert_eq!(take_decoded(&mut output, 10, 4, Some((1, 0))), None);
    assert_eq!(take_decoded(&mut output, 10, 4, Some((1, 5))), None);
    assert_eq!(output, vec![5]);
}
