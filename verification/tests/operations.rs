use sqp::operations::add_rows;
use sqp::operations::sub_rows;
use sqp::ColorFormat;

#[test]
fn rows_of_a_band_are_differenced() {
    // Six rows of one gray pixel: bands of two rows.
    let input = [10u8, 13, 20, 15, 0, 255];
    assert_eq!(sub_rows(1, 6, ColorFormat::Gray8, &input), vec![10, 3, 20, 251, 0, 255]);
}

#[test]
fn band_height_is_rounded_up() {
    // Four rows: bands of two rows, so rows 0 and 2 are kept.
    let input = [1u8, 2, 4, 8];
    assert_eq!(sub_rows(1, 4, ColorFormat::Gray8, &input), vec![1, 1, 4, 4]);
    // Five rows: bands of two rows, so rows 0, 2 and 4 are kept.
    let input = [1u8, 2, 4, 8, 16];
    assert_eq!(sub_rows(1, 5, ColorFormat::Gray8, &input), vec![1, 1, 4, 4, 16]);
}

#[test]
fn alpha_moves_behind_the_colors() {
    let input = [1u8, 2, 3, 4, 5, 6, 7, 8];
    assert_eq!(sub_rows(2, 1, ColorFormat::Rgba8, &input), vec![1, 2, 3, 5, 6, 7, 4, 8]);
    assert_eq!(sub_rows(4, 1, ColorFormat::GrayA8, &input), vec![1, 3, 5, 7, 2, 4, 6, 8]);
    assert_eq!(sub_rows(2, 1, ColorFormat::Rgb8, &input[..6]), vec![1, 2, 3, 4, 5, 6]);
}

#[test]
fn tiny_rgba_is_differenced_and_split() {
    let input = [
        0xFF, 0xFF, 0xFF, 0xFF, 0x00, 0x80, 0x00, 0x80, 0xFF, 0xFF, 0xFF, 0xFF, 0x00, 0x80, 0x00,
        0x80,
    ];
    // Two rows make bands of one row, so no row is differenced.
    assert_eq!(
        sub_rows(2, 2, ColorFormat::Rgba8, &input),
        vec![
            0xFF, 0xFF, 0xFF, 0x00, 0x80, 0x00, 0xFF, 0xFF, 0xFF, 0x00, 0x80, 0x00, 0xFF, 0x80,
            0xFF, 0x80
        ]
    );
}

#[test]
fn add_rows_sums_within_a_band() {
    let stored = [10u8, 3, 20, 251, 0, 255];
    assert_eq!(add_rows(1, 6, ColorFormat::Gray8, &stored), vec![10, 13, 20, 15, 0, 255]);
}

#[test]
fn add_rows_puts_alpha_back() {
    let stored = [1u8, 2, 3, 5, 6, 7, 4, 8];
    assert_eq!(add_rows(2, 1, ColorFormat::Rgba8, &stored), vec![1, 2, 3, 4, 5, 6, 7, 8]);
}

#[test]
fn add_rows_reads_no_more_than_the_pixels() {
    let stored = [1u8, 1, 4, 4, 99, 98];
    assert_eq!(add_rows(1, 4, ColorFormat::Gray8, &stored), vec![1, 2, 4, 8]);
}

#[test]
fn empty_images_have_no_rows() {
    assert_eq!(sub_rows(0, 0, ColorFormat::Rgba8, &[]), Vec::<u8>::new());
    assert_eq!(sub_rows(5, 0, ColorFormat::Rgba8, &[]), Vec::<u8>::new());
    assert_eq!(sub_rows(0, 5, ColorFormat::Rgba8, &[]), Vec::<u8>::new());
    assert_eq!(add_rows(0, 0, ColorFormat::Rgba8, &[]), Vec::<u8>::new());
    assert_eq!(add_rows(0, 5, ColorFormat::GrayA8, &[1, 2]), Vec::<u8>::new());
}

#[test]
fn rows_round_trip_in_every_format() {
    let formats = [ColorFormat::Rgba8, ColorFormat::Rgb8, ColorFormat::GrayA8, ColorFormat::Gray8];
    let mut seed: u64 = 11;
    for format in formats {
        for (width, height) in [(1u32, 1u32), (3, 7), (8, 8), (5, 2), (13, 9), (1, 10)] {
            let len = width as usize * height as usize * format.pbc();
            let mut pixels = Vec::with_capacity(len);
            for _ in 0..len {
                seed = seed.wrapping_mul(6364136223846793005).wrapping_add(1442695040888963407);
                pixels.push((seed >> 56) as u8);
            }
            let stored = sub_rows(width, height, format, &pixels);
            assert_eq!(stored.len(), pixels.len());
            assert_eq!(add_rows(width, height, format, &stored), pixels);
        }
    }
}
