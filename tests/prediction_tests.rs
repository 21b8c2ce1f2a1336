use eet51_lab3::custom_encode::GolombError;
use eet51_lab3::golomb::encode::{custom_encode, IntMatrix};
use eet51_lab3::prediction::{prediction_err_matrix, reconstruct_image_from_pred_err_matrix};

#[test]
fn prediction_errors_of_small_image() {
    // 2 by 3 image, x-major: (x, y) at x * 3 + y
    let pixels = [10u8, 12, 15, 11, 20, 14];
    let m = prediction_err_matrix(&pixels, 2, 3);
    assert_eq!(m.rows, 2);
    assert_eq!(m.cols, 3);
    // (0,0)=10; (0,1)=12-10; (0,2)=15-12; (1,0)=11-10;
    // (1,1)=20-11-12+10; (1,2)=14-20-15+12
    assert_eq!(m.values, vec![10, 2, 3, 1, 7, -9]);
}

#[test]
fn reconstruction_inverts_prediction() {
    let pixels: Vec<u8> = (0..35u32).map(|i| ((i * 37 + 11) % 256) as u8).collect();
    let m = prediction_err_matrix(&pixels, 5, 7);
    assert_eq!(reconstruct_image_from_pred_err_matrix(&m), pixels);
}

#[test]
fn reconstruction_clamps_to_byte_range() {
    let m = IntMatrix { rows: 1, cols: 3, values: vec![300, -400, 5] };
    assert_eq!(reconstruct_image_from_pred_err_matrix(&m), vec![255, 0, 5]);
}

#[test]
fn extreme_prediction_errors_are_refused_by_golomb() {
    let pixels = [0u8, 255, 255, 0];
    let m = prediction_err_matrix(&pixels, 2, 2);
    assert_eq!(m.values, vec![0, 255, 255, -510]);
    assert!(matches!(
        custom_encode(&m),
        Err(GolombError::MagnitudeOutOfRange { index: 3 })
    ));
}
