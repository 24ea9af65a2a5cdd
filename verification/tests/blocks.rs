use sqp::compression::dct::coefficient_blocks;
use sqp::compression::dct::join_blocks;
use sqp::compression::dct::split_blocks;
use sqp::compression::dct::DctParameters;
use sqp::ColorFormat;

fn parameters(width: usize, height: usize, format: ColorFormat) -> DctParameters {
    DctParameters { quality: 80, format, width, height }
}

#[test]
fn default_parameters() {
    let p = DctParameters::default();
    assert_eq!(p.quality, 80);
    assert_eq!(p.format, ColorFormat::Rgba8);
    assert_eq!(p.width, 0);
    assert_eq!(p.height, 0);
}

#[test]
fn one_pixel_is_one_padded_block() {
    let blocks = split_blocks(&[7], parameters(1, 1, ColorFormat::Gray8));
    let mut expected = vec![0u8; 64];
    expected[0] = 7;
    assert_eq!(blocks, vec![expected]);
}

#[test]
fn a_width_of_eight_gets_a_whole_column_of_padding() {
    let input: Vec<u8> = (0..64).map(|i| i as u8 + 1).collect();
    let blocks = split_blocks(&input, parameters(8, 8, ColorFormat::Gray8));
    assert_eq!(blocks.len(), 4);
    assert_eq!(blocks[0], input);
    assert_eq!(blocks[1], vec![0u8; 64]);
    assert_eq!(blocks[2], vec![0u8; 64]);
    assert_eq!(blocks[3], vec![0u8; 64]);
}

#[test]
fn rows_are_padded_by_the_columns_added() {
    // Width 7 adds one column and one row: 18 rows hold two rows of blocks,
    // and the last row of the image is in none of them.
    let input: Vec<u8> = (0..7 * 17).map(|i| (i % 250) as u8 + 1).collect();
    let blocks = split_blocks(&input, parameters(7, 17, ColorFormat::Gray8));
    assert_eq!(blocks.len(), 2);
    assert_eq!(blocks[0][0], input[0]);
    assert_eq!(blocks[0][6], input[6]);
    assert_eq!(blocks[0][7], 0);
    assert_eq!(blocks[0][8], input[7]);
    assert_eq!(blocks[1][0], input[8 * 7]);
    assert_eq!(blocks[1][7 * 8 + 6], input[15 * 7 + 6]);
}

#[test]
fn channels_are_split() {
    // Two rows of two pixels of three channels.
    let input = [1, 2, 3, 4, 5, 6, 7, 8, 9, 10, 11, 12];
    let blocks = split_blocks(&input, parameters(2, 2, ColorFormat::Rgb8));
    assert_eq!(blocks.len(), 3);
    assert_eq!(&blocks[0][..3], &[1, 4, 0]);
    assert_eq!(&blocks[1][..3], &[2, 5, 0]);
    assert_eq!(&blocks[2][..3], &[3, 6, 0]);
    assert_eq!(&blocks[0][8..11], &[7, 10, 0]);
    assert_eq!(&blocks[2][8..11], &[9, 12, 0]);
    assert!(blocks[0][16..].iter().all(|v| *v == 0));
}

#[test]
fn a_flat_image_may_have_no_block() {
    // Width 2 adds six columns and six rows: seven rows hold no block.
    let blocks = split_blocks(&[1, 2, 3, 4, 5, 6], parameters(2, 1, ColorFormat::Rgb8));
    assert_eq!(blocks.len(), 0);
    let none: Vec<Vec<u8>> = Vec::new();
    assert_eq!(join_blocks(&none, parameters(2, 1, ColorFormat::Rgb8)), vec![0u8; 6]);
}

#[test]
fn no_pixels_still_have_padding_blocks() {
    assert_eq!(split_blocks(&[], parameters(0, 0, ColorFormat::Gray8)), vec![vec![0u8; 64]]);
    assert_eq!(split_blocks(&[], parameters(0, 8, ColorFormat::Gray8)).len(), 2);
    assert_eq!(split_blocks(&[], parameters(3, 0, ColorFormat::Gray8)).len(), 0);
}

#[test]
fn blocks_are_joined_to_the_image() {
    let input: Vec<u8> = (0..20 * 9 * 3).map(|i| (i * 7 % 251) as u8).collect();
    let p = parameters(20, 9, ColorFormat::Rgb8);
    let blocks = split_blocks(&input, p);
    assert_eq!(blocks.len(), 3 * 3 * 1);
    let mut expected = input.clone();
    for value in expected[8 * 20 * 3..].iter_mut() {
        *value = 0;
    }
    assert_eq!(join_blocks(&blocks, p), expected);
}

#[test]
fn the_last_column_of_blocks_is_joined_whole() {
    let input: Vec<u8> = (0..16 * 8).map(|i| i as u8 + 1).collect();
    let p = parameters(16, 8, ColorFormat::Gray8);
    let blocks = split_blocks(&input, p);
    assert_eq!(blocks.len(), 6);
    assert_eq!(join_blocks(&blocks, p), input);
}

#[test]
fn missing_blocks_are_zero() {
    let p = parameters(2, 2, ColorFormat::GrayA8);
    let mut first = vec![0u8; 64];
    first[0] = 9;
    first[1] = 8;
    first[8] = 7;
    first[9] = 6;
    assert_eq!(join_blocks(&vec![first.clone()], p), vec![9, 0, 8, 0, 7, 0, 6, 0]);
    assert_eq!(join_blocks(&Vec::new(), p), vec![0u8; 8]);
    let mut second = vec![0u8; 64];
    second[0] = 5;
    second[1] = 4;
    second[8] = 3;
    second[9] = 2;
    let extra = vec![1u8; 64];
    assert_eq!(join_blocks(&vec![first, second, extra], p), vec![9, 5, 8, 4, 7, 3, 6, 2]);
}

#[test]
fn coefficients_are_cut_into_blocks() {
    // Width 2 and height 2 make one block for each of two channels.
    let p = parameters(2, 2, ColorFormat::GrayA8);
    let stream: Vec<i16> = (0..128).map(|i| i as i16 - 64).collect();
    let blocks = coefficient_blocks(&stream, p);
    assert_eq!(blocks.len(), 2);
    assert_eq!(blocks[0], stream[..64].to_vec());
    assert_eq!(blocks[1], stream[64..].to_vec());
}

#[test]
fn a_short_stream_gives_the_blocks_it_holds() {
    let p = parameters(2, 2, ColorFormat::GrayA8);
    let stream: Vec<i16> = (0..100).map(|i| i as i16).collect();
    let blocks = coefficient_blocks(&stream, p);
    assert_eq!(blocks, vec![stream[..64].to_vec()]);
    assert_eq!(coefficient_blocks(&stream[..63], p).len(), 0);
    assert_eq!(coefficient_blocks(&[], p).len(), 0);
}

#[test]
fn coefficients_behind_the_last_block_are_left_out() {
    let p = parameters(2, 2, ColorFormat::Gray8);
    let stream: Vec<i16> = (0..200).map(|i| i as i16).collect();
    assert_eq!(coefficient_blocks(&stream, p), vec![stream[..64].to_vec()]);
    // Seven padded rows hold no block at all.
    assert_eq!(coefficient_blocks(&stream, parameters(2, 1, ColorFormat::Gray8)).len(), 0);
}
