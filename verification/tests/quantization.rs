use sqp::compression::dct::quantization_matrix;
use sqp::compression::dct::BASE_QUANTIZATION_MATRIX;

#[test]
fn create_quantization_matrix_q80() {
    let result = quantization_matrix(80);

    assert_eq!(
        result,
        [
            6, 4, 4, 6, 10, 16, 20, 24,
            5, 5, 6, 8, 10, 23, 24, 22,
            6, 5, 6, 10, 16, 23, 28, 22,
            6, 7, 9, 12, 20, 35, 32, 25,
            7, 9, 15, 22, 27, 44, 41, 31,
            10, 14, 22, 26, 32, 42, 45, 37,
            20, 26, 31, 35, 41, 48, 48, 40,
            29, 37, 38, 39, 45, 40, 41, 40
        ]
    );
}

#[test]
fn create_quantization_matrix_q100() {
    let result = quantization_matrix(100);

    assert_eq!(
        result,
        [
            1, 1, 1, 1, 1, 1, 1, 1,
            1, 1, 1, 1, 1, 1, 1, 1,
            1, 1, 1, 1, 1, 1, 1, 1,
            1, 1, 1, 1, 1, 1, 1, 1,
            1, 1, 1, 1, 1, 1, 1, 1,
            1, 1, 1, 1, 1, 1, 1, 1,
            1, 1, 1, 1, 1, 1, 1, 1,
            1, 1, 1, 1, 1, 1, 1, 1
        ]
    );
}

/// The table as floating-point arithmetic gives it.
fn float_matrix(quality: u32) -> [u16; 64] {
    let factor = if quality < 50 {
        5000.0 / quality as f32
    } else {
        200.0 - 2.0 * quality as f32
    };

    let new_matrix =
        BASE_QUANTIZATION_MATRIX.map(|i| f32::floor((factor * i as f32 + 50.0) / 100.0) as u16);
    new_matrix.map(|i| if i == 0 { 1 } else { i })
}

#[test]
fn quantization_matrix_agrees_with_float_arithmetic() {
    for quality in 0..=300u32 {
        assert_eq!(quantization_matrix(quality), float_matrix(quality), "quality {}", quality);
    }
}

#[test]
fn quantization_matrix_entries_are_positive() {
    for quality in 0..=255u32 {
        let matrix = quantization_matrix(quality);
        assert!(matrix.iter().all(|entry| *entry >= 1), "quality {}", quality);
    }
}

#[test]
fn quantization_matrix_q1_scales_by_fifty() {
    let matrix = quantization_matrix(1);
    assert_eq!(matrix[0], 800);
    assert_eq!(matrix[1], 550);
    assert_eq!(matrix[53], 6050);
}

#[test]
fn quantization_matrix_q50_is_the_base_matrix() {
    assert_eq!(quantization_matrix(50), BASE_QUANTIZATION_MATRIX);
}

#[test]
fn quantization_matrix_q0_is_saturated() {
    assert_eq!(quantization_matrix(0), [65535u16; 64]);
}

#[test]
fn quantization_matrix_above_100_is_all_ones() {
    assert_eq!(quantization_matrix(101), [1u16; 64]);
    assert_eq!(quantization_matrix(4_000_000_000), [1u16; 64]);
}
