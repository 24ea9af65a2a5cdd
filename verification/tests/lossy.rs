use std::f32::consts::{PI, SQRT_2};

use sqp::compression::dct::coefficient_blocks;
use sqp::compression::dct::join_blocks;
use sqp::compression::dct::quantization_matrix;
use sqp::compression::dct::split_blocks;
use sqp::compression::dct::DctParameters;
use sqp::ColorFormat;
use sqp::CompressionType;
use sqp::Decoded;
use sqp::SquishyPicture;

fn scale(k: usize) -> f32 {
    if k == 0 {
        1.0 / 8f32.sqrt()
    } else {
        SQRT_2 / 8f32.sqrt()
    }
}

fn angle(x: usize, u: usize) -> f32 {
    f32::cos((2.0 * x as f32 + 1.0) * u as f32 * PI / 16.0)
}

fn forward(block: &[u8], table: &[u16; 64]) -> Vec<i16> {
    let mut out = Vec::new();
    for u in 0..8 {
        for v in 0..8 {
            let mut sum = 0.0;
            for x in 0..8 {
                for y in 0..8 {
                    sum += (block[x * 8 + y] as f32 - 128.0) * angle(x, u) * angle(y, v);
                }
            }
            let coefficient = scale(u) * scale(v) * sum;
            out.push((coefficient / table[u * 8 + v] as f32).round() as i16);
        }
    }
    out
}

fn inverse(chunk: &[i16], table: &[u16; 64]) -> Vec<u8> {
    let mut out = Vec::new();
    for x in 0..8 {
        for y in 0..8 {
            let mut sum = 0.0;
            for u in 0..8 {
                for v in 0..8 {
                    let coefficient = (chunk[u * 8 + v] as i32 * table[u * 8 + v] as i32) as f32;
                    sum += scale(u) * scale(v) * coefficient * angle(x, u) * angle(y, v);
                }
            }
            out.push((sum + 128.0).round() as u8);
        }
    }
    out
}

fn lossy_round_trip(width: u32, height: u32, format: ColorFormat, quality: u8, bitmap: &[u8]) -> Vec<u8> {
    let image = SquishyPicture::from_raw_lossy(width, height, format, quality, bitmap.to_vec());
    let parameters = DctParameters {
        quality: image.quality() as u32,
        format,
        width: width as usize,
        height: height as usize,
    };
    let table = quantization_matrix(parameters.quality);
    let mut coefficients: Vec<i16> = Vec::new();
    for block in split_blocks(image.as_raw(), parameters) {
        coefficients.extend(forward(&block, &table));
    }
    let file = image.encode(&coefficients).unwrap();

    match SquishyPicture::decode(&file) {
        Ok(Decoded::Coefficients(header, found)) => {
            assert_eq!(found, coefficients);
            assert_eq!(header.compression_type, CompressionType::LossyDct);
            let parameters = DctParameters {
                quality: header.quality as u32,
                format: header.color_format,
                width: header.width as usize,
                height: header.height as usize,
            };
            let table = quantization_matrix(parameters.quality);
            let blocks: Vec<Vec<u8>> = coefficient_blocks(&found, parameters)
                .iter()
                .map(|chunk| inverse(chunk, &table))
                .collect();
            join_blocks(&blocks, parameters)
        }
        _ => panic!("expected coefficients"),
    }
}

fn gradient(width: u32, height: u32, channels: usize) -> Vec<u8> {
    let mut out = Vec::new();
    let mut seed: u64 = 5;
    for r in 0..height {
        for c in 0..width {
            for ch in 0..channels {
                seed = seed.wrapping_mul(6364136223846793005).wrapping_add(1442695040888963407);
                let noise = (seed >> 60) as u32;
                out.push(((r * 5 + c * 3 + ch as u32 * 40 + noise) % 256) as u8);
            }
        }
    }
    out
}

fn mean_error(a: &[u8], b: &[u8]) -> f32 {
    assert_eq!(a.len(), b.len());
    let sum: u64 = a.iter().zip(b).map(|(x, y)| (*x as i32 - *y as i32).unsigned_abs() as u64).sum();
    sum as f32 / a.len() as f32
}

#[test]
fn lossy_tolerance_at_full_quality() {
    for format in [ColorFormat::Rgba8, ColorFormat::Rgb8, ColorFormat::GrayA8, ColorFormat::Gray8] {
        for (width, height) in [(8u32, 8u32), (16, 8), (24, 32)] {
            let bitmap = gradient(width, height, format.channels() as usize);
            let back = lossy_round_trip(width, height, format, 100, &bitmap);
            assert!(mean_error(&bitmap, &back) <= 2.0);
        }
    }
}

#[test]
fn lossy_round_trip_keeps_the_shape_at_lower_quality() {
    let bitmap = gradient(16, 16, 3);
    let back = lossy_round_trip(16, 16, ColorFormat::Rgb8, 50, &bitmap);
    assert_eq!(back.len(), bitmap.len());
    assert!(mean_error(&bitmap, &back) <= 16.0);
}

#[test]
fn rows_below_the_blocks_come_back_as_zero() {
    // Width 7 adds one row: 18 rows hold two rows of blocks.
    let bitmap = gradient(7, 17, 1);
    let back = lossy_round_trip(7, 17, ColorFormat::Gray8, 100, &bitmap);
    assert_eq!(back.len(), bitmap.len());
    assert!(mean_error(&bitmap[..7 * 16], &back[..7 * 16]) <= 2.0);
    assert_eq!(&back[7 * 16..], &[0u8; 7]);
}
