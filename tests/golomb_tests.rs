use eet51_lab3::bits::pack_bits;
use eet51_lab3::custom_encode::{
    custom_decode, custom_encode, custom_encode_inner, CustomPixel, GolombError,
};
use eet51_lab3::golomb::encode::{custom_encode as encode_matrix, CustomGolombEncodedImage, IntMatrix};

fn pixels(values: &[u8]) -> Vec<CustomPixel> {
    values.iter().map(|&value| CustomPixel { sign: false, value }).collect()
}

// Drops the sign bit that starts each codeword of `bits` (all of width `w`).
fn without_signs(bits: &[u8], w: usize) -> Vec<u8> {
    bits.chunks(w).flat_map(|c| c[1..].to_vec()).collect()
}

#[test]
fn four_magnitudes_of_21_with_divisor_8() {
    let bits = custom_encode_inner(&pixels(&[21, 21, 21, 21]), 8);
    assert_eq!(bits, [0u8, 0, 0, 1, 1, 0, 1].repeat(4));
    assert_eq!(
        pack_bits(&without_signs(&bits, 7)),
        vec![0b00110100, 0b11010011, 0b01001101]
    );
    assert_eq!(pack_bits(&bits), vec![0b00011010, 0b00110100, 0b01101000, 0b11010000]);
}

#[test]
fn single_magnitude_of_21_with_divisor_8() {
    let bits = custom_encode_inner(&pixels(&[21]), 8);
    assert_eq!(pack_bits(&without_signs(&bits, 7)), vec![0b00110100]);
}

#[test]
fn sign_bit_comes_first() {
    let bits = custom_encode_inner(&[CustomPixel { sign: true, value: 3 }], 2);
    // sign 1, quotient 1 as "01", remainder 1 in one bit
    assert_eq!(bits, vec![1, 0, 1, 1]);
}

#[test]
fn divisor_is_least_power_of_two_above_half_mean() {
    let (m, bits) = custom_encode(&pixels(&[21, 21, 21, 21])).unwrap();
    assert_eq!(m, 16);
    assert_eq!(bits, custom_encode_inner(&pixels(&[21, 21, 21, 21]), 16));
    assert_eq!(custom_encode(&pixels(&[0, 0, 1])).unwrap().0, 1);
    assert_eq!(custom_encode(&pixels(&[255, 255])).unwrap().0, 128);
    assert_eq!(custom_encode(&pixels(&[4, 4])).unwrap().0, 2);
    assert_eq!(custom_encode(&pixels(&[5, 4])).unwrap().0, 4);
}

#[test]
fn empty_sample_has_no_divisor() {
    assert_eq!(custom_encode(&[]), Err(GolombError::EmptyInput));
}

#[test]
fn golomb_round_trip() {
    let data: Vec<CustomPixel> = (0..=255u8)
        .map(|v| CustomPixel { sign: v % 3 == 0, value: v })
        .collect();
    for m in [1u8, 2, 4, 8, 16, 32, 64, 128] {
        let bits = custom_encode_inner(&data, m);
        let back = custom_decode(&bits, m).unwrap();
        assert_eq!(back.len(), data.len());
        for (a, b) in back.iter().zip(data.iter()) {
            assert_eq!(a.sign, b.sign);
            assert_eq!(a.value, b.value);
        }
    }
    let (m, bits) = custom_encode(&data).unwrap();
    assert_eq!(custom_decode(&bits, m).unwrap(), data);
}

#[test]
fn empty_stream_decodes_to_nothing() {
    assert_eq!(custom_decode(&[], 4), Ok(vec![]));
}

#[test]
fn divisor_must_be_power_of_two() {
    assert_eq!(custom_decode(&[0, 1, 0], 3), Err(GolombError::InvalidDivisor));
    assert_eq!(custom_decode(&[0, 1, 0], 0), Err(GolombError::InvalidDivisor));
}

#[test]
fn truncated_stream_is_reported() {
    let mut bits = custom_encode_inner(&pixels(&[21, 21]), 8);
    bits.pop();
    assert_eq!(custom_decode(&bits, 8), Err(GolombError::InsufficientBits { start: 7 }));
    // no terminating one
    assert_eq!(custom_decode(&[0, 0, 0], 8), Err(GolombError::InsufficientBits { start: 0 }));
}

#[test]
fn non_bit_is_reported() {
    assert_eq!(custom_decode(&[2, 1], 1), Err(GolombError::InvalidBit { start: 0 }));
    assert_eq!(custom_decode(&[0, 1, 0, 3], 4), Err(GolombError::InvalidBit { start: 0 }));
}

#[test]
fn oversized_magnitude_is_reported() {
    let mut bits = vec![0u8];
    bits.extend(std::iter::repeat(0u8).take(256));
    bits.push(1);
    assert_eq!(custom_decode(&bits, 1), Err(GolombError::ValueOutOfRange { start: 0 }));
    // quotient 127 with divisor 2 and remainder 1 gives 255: fits
    let mut ok = vec![0u8];
    ok.extend(std::iter::repeat(0u8).take(127));
    ok.extend([1, 1]);
    assert_eq!(custom_decode(&ok, 2), Ok(vec![CustomPixel { sign: false, value: 255 }]));
    // quotient 128 with divisor 2 gives 256: too large
    let mut big = vec![0u8];
    big.extend(std::iter::repeat(0u8).take(128));
    big.extend([1, 0]);
    assert_eq!(custom_decode(&big, 2), Err(GolombError::ValueOutOfRange { start: 0 }));
}

#[test]
fn matrix_round_trip() {
    let matrix = IntMatrix { rows: 2, cols: 3, values: vec![0, -5, 17, 255, -255, 3] };
    let encoded = encode_matrix(&matrix).unwrap();
    assert_eq!(encoded.shape, (2, 3));
    assert_eq!(encoded.bits(), encoded.encoded_bits.len());
    let decoded = encoded.decode().unwrap();
    assert_eq!(decoded.rows, 2);
    assert_eq!(decoded.cols, 3);
    assert_eq!(decoded.values, matrix.values);
}

#[test]
fn empty_matrix_is_refused() {
    let matrix = IntMatrix { rows: 0, cols: 0, values: vec![] };
    assert!(matches!(encode_matrix(&matrix), Err(GolombError::EmptyInput)));
}

#[test]
fn shape_mismatch_is_reported() {
    let img = CustomGolombEncodedImage {
        m: 8,
        encoded_bits: custom_encode_inner(&pixels(&[1, 2, 3]), 8),
        shape: (2, 2),
    };
    assert!(matches!(
        img.decode(),
        Err(GolombError::ShapeMismatch { expected: 4, found: 3 })
    ));
}
