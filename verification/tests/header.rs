use sqp::binio::IoFailure;
use sqp::header::Header;
use sqp::picture::Error;
use sqp::ColorFormat;
use sqp::CompressionType;

#[test]
fn color_format_parameters() {
    assert_eq!(ColorFormat::Rgba8.channels(), 4);
    assert_eq!(ColorFormat::Rgb8.channels(), 3);
    assert_eq!(ColorFormat::GrayA8.channels(), 2);
    assert_eq!(ColorFormat::Gray8.channels(), 1);
    assert_eq!(ColorFormat::Rgba8.pbc(), 4);
    assert_eq!(ColorFormat::Rgb8.pbc(), 3);
    assert_eq!(ColorFormat::GrayA8.pbc(), 2);
    assert_eq!(ColorFormat::Gray8.pbc(), 1);
    assert_eq!(ColorFormat::Rgba8.bpp(), 32);
    assert_eq!(ColorFormat::Rgb8.bpp(), 24);
    assert_eq!(ColorFormat::GrayA8.bpp(), 16);
    assert_eq!(ColorFormat::Gray8.bpp(), 8);
    assert_eq!(ColorFormat::Rgba8.bpc(), 8);
    assert_eq!(ColorFormat::Gray8.bpc(), 8);
    assert_eq!(ColorFormat::Rgba8.alpha_channel(), Some(3));
    assert_eq!(ColorFormat::Rgb8.alpha_channel(), None);
    assert_eq!(ColorFormat::GrayA8.alpha_channel(), Some(1));
    assert_eq!(ColorFormat::Gray8.alpha_channel(), None);
}

#[test]
fn enums_have_their_bytes() {
    assert_eq!(CompressionType::Uncompressed.to_u8(), 0);
    assert_eq!(CompressionType::Lossless.to_u8(), 1);
    assert_eq!(CompressionType::LossyDct.to_u8(), 2);
    assert_eq!(CompressionType::from_u8(0), Some(CompressionType::Uncompressed));
    assert_eq!(CompressionType::from_u8(1), Some(CompressionType::Lossless));
    assert_eq!(CompressionType::from_u8(2), Some(CompressionType::LossyDct));
    assert_eq!(CompressionType::from_u8(3), None);
    assert_eq!(ColorFormat::Rgba8.to_u8(), 0);
    assert_eq!(ColorFormat::Rgb8.to_u8(), 1);
    assert_eq!(ColorFormat::GrayA8.to_u8(), 2);
    assert_eq!(ColorFormat::Gray8.to_u8(), 3);
    assert_eq!(ColorFormat::from_u8(0), Some(ColorFormat::Rgba8));
    assert_eq!(ColorFormat::from_u8(1), Some(ColorFormat::Rgb8));
    assert_eq!(ColorFormat::from_u8(2), Some(ColorFormat::GrayA8));
    assert_eq!(ColorFormat::from_u8(3), Some(ColorFormat::Gray8));
    assert_eq!(ColorFormat::from_u8(4), None);
    assert_eq!(ColorFormat::from_u8(255), None);
}

#[test]
fn default_header() {
    let header = Header::default();
    assert_eq!(&header.magic, b"dangoimg");
    assert_eq!(header.width, 0);
    assert_eq!(header.height, 0);
    assert_eq!(header.compression_type, CompressionType::Lossless);
    assert_eq!(header.quality, 0);
    assert_eq!(header.color_format, ColorFormat::Rgba8);
    assert_eq!(header.len(), 19);
}

#[test]
fn header_bytes_are_exact() {
    let header = Header {
        magic: *b"dangoimg",
        width: 0x0102_0304,
        height: 0xA0B0_C0D0,
        compression_type: CompressionType::LossyDct,
        quality: 80,
        color_format: ColorFormat::Gray8,
    };
    let mut out = vec![7u8];
    assert_eq!(header.write_into(&mut out), 19);
    assert_eq!(
        out,
        vec![
            7, b'd', b'a', b'n', b'g', b'o', b'i', b'm', b'g', 0x04, 0x03, 0x02, 0x01, 0xD0, 0xC0,
            0xB0, 0xA0, 2, 80, 3
        ]
    );
    let back = Header::read_from(&out[1..]).unwrap();
    assert_eq!(back.magic, header.magic);
    assert_eq!(back.width, header.width);
    assert_eq!(back.height, header.height);
    assert_eq!(back.compression_type, header.compression_type);
    assert_eq!(back.quality, header.quality);
    assert_eq!(back.color_format, header.color_format);
}

fn valid() -> Vec<u8> {
    let mut out = Vec::new();
    Header::default().write_into(&mut out);
    out
}

#[test]
fn wrong_magic_is_reported_with_the_bytes_found() {
    let mut bytes = valid();
    bytes[3] = b'G';
    match Header::read_from(&bytes) {
        Err(Error::InvalidIdentifier(found)) => assert_eq!(&found, b"danGoimg"),
        other => panic!("expected an invalid identifier, got {:?}", other.map(|_| ())),
    }
    // The identifier is looked at before anything else.
    assert!(matches!(Header::read_from(&[0u8; 8]), Err(Error::InvalidIdentifier(_))));
}

#[test]
fn short_headers_are_io_errors() {
    let bytes = valid();
    for len in [0usize, 1, 7, 8, 12, 16, 17, 18] {
        assert!(
            matches!(
                Header::read_from(&bytes[..len]),
                Err(Error::IoError(IoFailure::UnexpectedEof))
            ),
            "length {}",
            len
        );
    }
    assert!(Header::read_from(&bytes[..19]).is_ok());
}

#[test]
fn unknown_enums_are_bad_headers() {
    let mut bytes = valid();
    bytes[16] = 3;
    assert!(matches!(Header::read_from(&bytes), Err(Error::BadHeader)));
    // The compression type is read before the input is found to be short.
    assert!(matches!(Header::read_from(&bytes[..17]), Err(Error::BadHeader)));
    let mut bytes = valid();
    bytes[18] = 4;
    assert!(matches!(Header::read_from(&bytes), Err(Error::BadHeader)));
}
