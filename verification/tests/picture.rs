use sqp::binio::IoFailure;
use sqp::compression::lossless::CompressionError;
use sqp::picture::Error;
use sqp::ColorFormat;
use sqp::CompressionType;
use sqp::Decoded;
use sqp::SquishyPicture;

fn picture_of(decoded: Result<Decoded, Error>) -> SquishyPicture {
    match decoded {
        Ok(Decoded::Picture(picture)) => picture,
        Ok(Decoded::Coefficients(_, _)) => panic!("expected a picture, got coefficients"),
        Err(error) => panic!("expected a picture, got {:?}", error),
    }
}

fn noise(len: usize, mut seed: u64) -> Vec<u8> {
    let mut out = Vec::with_capacity(len);
    for _ in 0..len {
        seed = seed.wrapping_mul(6364136223846793005).wrapping_add(1442695040888963407);
        out.push((seed >> 56) as u8);
    }
    out
}

#[test]
fn magic_check() {
    assert!(matches!(SquishyPicture::decode(&[0x00; 19]), Err(Error::InvalidIdentifier(_))));
}

#[test]
fn tiny_lossless_round_trip() {
    let bitmap = vec![
        0xFF, 0xFF, 0xFF, 0xFF, 0x00, 0x80, 0x00, 0x80, 0xFF, 0xFF, 0xFF, 0xFF, 0x00, 0x80, 0x00,
        0x80,
    ];
    let image = SquishyPicture::from_raw_lossless(2, 2, ColorFormat::Rgba8, bitmap.clone());
    let file = image.encode(&[]).unwrap();
    assert_eq!(
        &file[..19],
        &[
            b'd', b'a', b'n', b'g', b'o', b'i', b'm', b'g', 0x02, 0x00, 0x00, 0x00, 0x02, 0x00,
            0x00, 0x00, 0x01, 0x00, 0x00
        ]
    );
    let back = picture_of(SquishyPicture::decode(&file));
    assert_eq!(back.width(), 2);
    assert_eq!(back.height(), 2);
    assert_eq!(back.color_format(), ColorFormat::Rgba8);
    assert_eq!(back.compression_type(), CompressionType::Lossless);
    assert_eq!(back.quality(), 0);
    assert_eq!(back.as_raw(), &bitmap);
    assert_eq!(back.into_raw(), bitmap);
}

#[test]
fn one_gray_pixel_uncompressed_is_exact() {
    let image = SquishyPicture::from_raw(
        1,
        1,
        ColorFormat::Gray8,
        CompressionType::Uncompressed,
        None,
        vec![0x41],
    );
    let file = image.encode(&[]).unwrap();
    assert_eq!(
        file,
        vec![
            b'd', b'a', b'n', b'g', b'o', b'i', b'm', b'g', 1, 0, 0, 0, 1, 0, 0, 0, 0, 0, 3, 1, 0,
            0, 0, 3, 0, 0, 0, 1, 0, 0, 0, 0x82, 0x00, 0x00
        ]
    );
    assert_eq!(picture_of(SquishyPicture::decode(&file)).into_raw(), vec![0x41]);
}

#[test]
fn round_trip_in_every_format_and_mode() {
    let formats = [ColorFormat::Rgba8, ColorFormat::Rgb8, ColorFormat::GrayA8, ColorFormat::Gray8];
    let modes = [CompressionType::Uncompressed, CompressionType::Lossless];
    let mut seed = 1u64;
    for format in formats {
        for mode in modes {
            for (width, height) in [(1u32, 1u32), (2, 3), (16, 16), (31, 5), (7, 40)] {
                seed += 1;
                let bitmap = noise(width as usize * height as usize * format.pbc(), seed);
                let image =
                    SquishyPicture::from_raw(width, height, format, mode, None, bitmap.clone());
                let file = image.encode(&[]).unwrap();
                let back = picture_of(SquishyPicture::decode(&file));
                assert_eq!(back.width(), width);
                assert_eq!(back.height(), height);
                assert_eq!(back.color_format(), format);
                assert_eq!(back.compression_type(), mode);
                assert_eq!(back.into_raw(), bitmap);
            }
        }
    }
}

#[test]
fn round_trip_of_a_picture_with_several_chunks() {
    let bitmap = noise(512 * 400 * 3, 77);
    let image = SquishyPicture::from_raw_lossless(512, 400, ColorFormat::Rgb8, bitmap.clone());
    let file = image.encode(&[]).unwrap();
    let chunk_count = u32::from_le_bytes([file[19], file[20], file[21], file[22]]) as usize;
    assert!(chunk_count >= 2);
    let mut raw = 0usize;
    let mut compressed = 0usize;
    for i in 0..chunk_count {
        let at = 23 + 8 * i;
        compressed +=
            u32::from_le_bytes([file[at], file[at + 1], file[at + 2], file[at + 3]]) as usize;
        raw += u32::from_le_bytes([file[at + 4], file[at + 5], file[at + 6], file[at + 7]])
            as usize;
    }
    assert_eq!(raw, bitmap.len());
    assert_eq!(compressed, file.len() - 23 - 8 * chunk_count);
    assert_eq!(picture_of(SquishyPicture::decode(&file)).into_raw(), bitmap);
}

#[test]
fn quality_is_clamped() {
    let make = |quality: Option<u8>, mode: CompressionType| {
        SquishyPicture::from_raw(1, 1, ColorFormat::Gray8, mode, quality, vec![0]).quality()
    };
    assert_eq!(make(Some(0), CompressionType::LossyDct), 1);
    assert_eq!(make(Some(1), CompressionType::LossyDct), 1);
    assert_eq!(make(Some(80), CompressionType::LossyDct), 80);
    assert_eq!(make(Some(100), CompressionType::LossyDct), 100);
    assert_eq!(make(Some(101), CompressionType::LossyDct), 100);
    assert_eq!(make(Some(255), CompressionType::LossyDct), 100);
    assert_eq!(make(None, CompressionType::Lossless), 0);
    assert_eq!(make(None, CompressionType::Uncompressed), 0);
    assert_eq!(make(Some(200), CompressionType::Lossless), 0);
    assert_eq!(make(Some(50), CompressionType::Lossless), 0);
    assert_eq!(make(Some(50), CompressionType::Uncompressed), 0);
    assert_eq!(
        SquishyPicture::from_raw_lossy(1, 1, ColorFormat::Gray8, 0, vec![0]).quality(),
        1
    );
    assert_eq!(
        SquishyPicture::from_raw_lossy(1, 1, ColorFormat::Gray8, 80, vec![0]).compression_type(),
        CompressionType::LossyDct
    );
}

#[test]
fn lossy_files_carry_coefficients() {
    let image = SquishyPicture::from_raw_lossy(1, 1, ColorFormat::Gray8, 80, vec![9]);
    let coefficients: Vec<i16> = (0..128).map(|i| (i * 37 % 200 - 100) as i16).collect();
    let file = image.encode(&coefficients).unwrap();
    assert_eq!(&file[8..19], &[1, 0, 0, 0, 1, 0, 0, 0, 2, 80, 3]);
    match SquishyPicture::decode(&file) {
        Ok(Decoded::Coefficients(header, found)) => {
            assert_eq!(header.width, 1);
            assert_eq!(header.height, 1);
            assert_eq!(header.quality, 80);
            assert_eq!(header.compression_type, CompressionType::LossyDct);
            assert_eq!(header.color_format, ColorFormat::Gray8);
            assert_eq!(found, coefficients);
        }
        _ => panic!("expected coefficients"),
    }
}

#[test]
fn empty_payload_is_no_chunks() {
    let image = SquishyPicture::from_raw_lossless(0, 0, ColorFormat::Rgba8, Vec::new());
    assert!(matches!(
        image.encode(&[]),
        Err(Error::CompressionError(CompressionError::NoChunks))
    ));
    let image = SquishyPicture::from_raw_lossy(1, 1, ColorFormat::Gray8, 50, vec![1]);
    assert!(matches!(
        image.encode(&[]),
        Err(Error::CompressionError(CompressionError::NoChunks))
    ));
}

#[test]
fn quality_byte_is_zero_outside_the_lossy_mode() {
    for mode in [CompressionType::Uncompressed, CompressionType::Lossless] {
        let image =
            SquishyPicture::from_raw(1, 1, ColorFormat::Gray8, mode, Some(50), vec![0x41]);
        let file = image.encode(&[]).unwrap();
        assert_eq!(file[17], 0);
    }
    let image = SquishyPicture::from_raw_lossy(1, 1, ColorFormat::Gray8, 50, vec![0x41]);
    assert_eq!(image.encode(&[1, 2, 3]).unwrap()[17], 50);
}

#[test]
fn a_stray_quality_byte_is_not_read() {
    let mut file = one_pixel_file();
    file[17] = 77;
    let back = picture_of(SquishyPicture::decode(&file));
    assert_eq!(back.quality(), 0);
    assert_eq!(back.into_raw(), vec![0x41]);
}

fn one_pixel_file() -> Vec<u8> {
    SquishyPicture::from_raw_lossless(1, 1, ColorFormat::Gray8, vec![0x41]).encode(&[]).unwrap()
}

#[test]
fn truncated_files_are_io_errors() {
    let file = one_pixel_file();
    assert_eq!(file.len(), 34);
    for len in [0usize, 5, 18, 19, 22, 23, 30, 33] {
        assert!(
            matches!(
                SquishyPicture::decode(&file[..len]),
                Err(Error::IoError(IoFailure::UnexpectedEof))
            ),
            "length {}",
            len
        );
    }
}

#[test]
fn a_payload_with_too_few_pixels_is_an_io_error() {
    let mut file = one_pixel_file();
    file[8] = 2;
    assert!(matches!(
        SquishyPicture::decode(&file),
        Err(Error::IoError(IoFailure::UnexpectedEof))
    ));
    let mut file = one_pixel_file();
    file[16] = 0;
    file[12] = 3;
    assert!(matches!(
        SquishyPicture::decode(&file),
        Err(Error::IoError(IoFailure::UnexpectedEof))
    ));
}

#[test]
fn huge_dimensions_are_an_io_error() {
    let mut file = one_pixel_file();
    for i in 8..16 {
        file[i] = 0xFF;
    }
    file[18] = 0;
    assert!(matches!(
        SquishyPicture::decode(&file),
        Err(Error::IoError(IoFailure::UnexpectedEof))
    ));
}

#[test]
fn a_payload_with_more_bytes_is_cut() {
    let image = SquishyPicture::from_raw(
        2,
        1,
        ColorFormat::Gray8,
        CompressionType::Uncompressed,
        None,
        vec![1, 2],
    );
    let mut file = image.encode(&[]).unwrap();
    file[8] = 1;
    assert_eq!(picture_of(SquishyPicture::decode(&file)).into_raw(), vec![1]);
}

#[test]
fn bad_header_fields_are_reported() {
    let mut file = one_pixel_file();
    file[16] = 9;
    assert!(matches!(SquishyPicture::decode(&file), Err(Error::BadHeader)));
    let mut file = one_pixel_file();
    file[18] = 4;
    assert!(matches!(SquishyPicture::decode(&file), Err(Error::BadHeader)));
}

#[test]
fn a_corrupt_chunk_is_padded_and_decoding_goes_on() {
    let image = SquishyPicture::from_raw(
        4,
        1,
        ColorFormat::Gray8,
        CompressionType::Uncompressed,
        None,
        vec![0x41, 0x41, 0x41, 0x41],
    );
    let mut file = image.encode(&[]).unwrap();
    let body = 19 + 4 + 8;
    // The second code becomes 300, which stands for nothing.
    file[body + 2] = 0x58;
    file[body + 3] = 0x02;
    assert_eq!(picture_of(SquishyPicture::decode(&file)).into_raw(), vec![0x41, 0, 0, 0]);
}
