//! The four-neighbour prediction error of an image and its inverse.
//!
//! Images and error matrices are stored x-major: the sample at (x, y) of a
//! `width` by `height` image sits at index `x * height + y`. A neighbour
//! outside the image counts as 0.

use vstd::prelude::*;
use crate::golomb::encode::IntMatrix;

verus! {

/// The prediction for index `k` from the samples `s` before it: the sum of
/// the previous row's and previous column's samples minus their diagonal.
pub open spec fn predicted(s: Seq<u8>, cols: nat, k: int) -> int {
    let has_row = k >= cols;
    let has_col = k % (cols as int) != 0;
    (if has_row {
        s[k - cols] as int
    } else {
        0
    }) + (if has_col {
        s[k - 1] as int
    } else {
        0
    }) - (if has_row && has_col {
        s[k - cols - 1] as int
    } else {
        0
    })
}

/// The prediction error of the pixel at index `k`.
pub open spec fn prediction_error_at(pixels: Seq<u8>, cols: nat, k: int) -> int {
    pixels[k] as int - predicted(pixels, cols, k)
}

/// `v` limited to `0..=255`.
pub open spec fn clamp_pixel(v: int) -> u8 {
    if v < 0 {
        0
    } else if v > 255 {
        255
    } else {
        v as u8
    }
}

/// The first `n` pixels rebuilt from prediction errors: each is its
/// prediction from the pixels already rebuilt plus its error, limited to
/// `0..=255`.
pub open spec fn reconstructed(errors: Seq<i32>, cols: nat, n: nat) -> Seq<u8>
    decreases n,
{
    if n == 0 {
        seq![]
    } else {
        let prev = reconstructed(errors, cols, (n - 1) as nat);
        let k = n - 1;
        prev.push(clamp_pixel(predicted(prev, cols, k) + errors[k] as int))
    }
}

/// The prediction errors of all pixels.
pub open spec fn prediction_errors(pixels: Seq<u8>, cols: nat) -> Seq<i32> {
    Seq::new(pixels.len(), |k: int| prediction_error_at(pixels, cols, k) as i32)
}

proof fn lemma_mod_step(k: int, c: int)
    requires
        c > 0,
        k >= 0,
    ensures
        (k + 1) % c == if k % c + 1 == c {
            0
        } else {
            k % c + 1
        },
{
    vstd::arithmetic::div_mod::lemma_fundamental_div_mod(k, c);
    vstd::arithmetic::div_mod::lemma_mod_pos_bound(k, c);
    let q = k / c;
    let r = k % c;
    assert(c * (q + 1) == c * q + c) by (nonlinear_arith);
    assert(q * c == c * q) by (nonlinear_arith);
    assert((q + 1) * c == c * (q + 1)) by (nonlinear_arith);
    if r + 1 == c {
        vstd::arithmetic::div_mod::lemma_fundamental_div_mod_converse(k + 1, c, q + 1, 0);
    } else {
        vstd::arithmetic::div_mod::lemma_fundamental_div_mod_converse(k + 1, c, q, r + 1);
    }
}

/// Index `k` has a previous column only if `k >= 1`, and a diagonal
/// neighbour only if `k > cols`.
proof fn lemma_col_facts(k: int, c: int)
    requires
        c > 0,
        k >= 0,
    ensures
        k % c != 0 ==> k >= 1,
        k >= c && k % c != 0 ==> k >= c + 1,
{
    vstd::arithmetic::div_mod::lemma_small_mod(0, c as nat);
    vstd::arithmetic::div_mod::lemma_mod_self_0(c);
}

proof fn lemma_reconstructed_len(errors: Seq<i32>, cols: nat, n: nat)
    ensures
        reconstructed(errors, cols, n).len() == n,
    decreases n,
{
    if n > 0 {
        lemma_reconstructed_len(errors, cols, (n - 1) as nat);
    }
}

/// The prediction of index `k` reads only the samples before it.
proof fn lemma_predicted_prefix(a: Seq<u8>, b: Seq<u8>, cols: nat, k: int)
    requires
        0 <= k,
        cols > 0,
        forall|i: int| 0 <= i < k ==> i < a.len() && i < b.len() && a[i] == b[i],
    ensures
        predicted(a, cols, k) == predicted(b, cols, k),
{
    lemma_col_facts(k, cols as int);
}

/// Rebuilding an image from its prediction errors gives the image back.
pub proof fn lemma_reconstruct_prediction(pixels: Seq<u8>, cols: nat, n: nat)
    requires
        cols > 0,
        n <= pixels.len(),
    ensures
        reconstructed(prediction_errors(pixels, cols), cols, n) == pixels.subrange(0, n as int),
    decreases n,
{
    if n > 0 {
        lemma_reconstruct_prediction(pixels, cols, (n - 1) as nat);
        let prev = pixels.subrange(0, n - 1);
        let k = n - 1;
        lemma_predicted_prefix(prev, pixels, cols, k);
        let e = prediction_errors(pixels, cols);
        assert(-510 <= prediction_error_at(pixels, cols, k) <= 510);
        assert(e[k] as int == prediction_error_at(pixels, cols, k));
        assert(pixels.subrange(0, n as int) =~= prev.push(pixels[k]));
    }
}

/// The prediction error of every pixel of a `width` by `height` image.
pub fn prediction_err_matrix(pixels: &[u8], width: usize, height: usize) -> (m: IntMatrix)
    requires
        pixels.len() == width * height,
    ensures
        m.rows == width,
        m.cols == height,
        m.wf(),
        m.values@ == prediction_errors(pixels@, height as nat),
{
    let mut values: Vec<i32> = Vec::new();
    let mut k: usize = 0;
    let mut y: usize = 0;
    while k < pixels.len()
        invariant
            pixels.len() == width * height,
            k <= pixels.len(),
            values.len() == k,
            k < pixels.len() ==> height > 0 && y == (k as int) % (height as int),
            forall|i: int|
                0 <= i < k ==> #[trigger] values@[i] as int == prediction_error_at(
                    pixels@,
                    height as nat,
                    i,
                ),
        decreases pixels.len() - k,
    {
        proof {
            lemma_col_facts(k as int, height as int);
        }
        let here = pixels[k] as i32;
        let row: i32 = if k >= height {
            pixels[k - height] as i32
        } else {
            0
        };
        let col: i32 = if y != 0 {
            pixels[k - 1] as i32
        } else {
            0
        };
        let diag: i32 = if k >= height && y != 0 {
            pixels[k - height - 1] as i32
        } else {
            0
        };
        values.push(here - row - col + diag);
        proof {
            lemma_mod_step(k as int, height as int);
        }
        y = if y + 1 == height {
            0
        } else {
            y + 1
        };
        k += 1;
    }
    proof {
        assert forall|i: int| 0 <= i < pixels.len() implies #[trigger] values@[i]
            == prediction_errors(pixels@, height as nat)[i] by {
            assert(-510 <= prediction_error_at(pixels@, height as nat, i) <= 510);
        }
        assert(values@ =~= prediction_errors(pixels@, height as nat));
    }
    IntMatrix { rows: width, cols: height, values }
}

/// Rebuilds the image whose prediction errors `matrix` holds.
pub fn reconstruct_image_from_pred_err_matrix(matrix: &IntMatrix) -> (pixels: Vec<u8>)
    requires
        matrix.wf(),
    ensures
        pixels@ == reconstructed(matrix.values@, matrix.cols as nat, matrix.values.len() as nat),
{
    let height = matrix.cols;
    let n = matrix.values.len();
    let mut pixels: Vec<u8> = Vec::new();
    let mut k: usize = 0;
    let mut y: usize = 0;
    proof {
        if height == 0 {
            assert(matrix.rows * 0 == 0) by (nonlinear_arith);
        } else {
            vstd::arithmetic::div_mod::lemma_small_mod(0, height as nat);
        }
    }
    while k < n
        invariant
            n == matrix.values.len(),
            n == matrix.rows * matrix.cols,
            height == matrix.cols,
            k <= n,
            k < n ==> height > 0 && y == (k as int) % (height as int),
            pixels@ == reconstructed(matrix.values@, height as nat, k as nat),
        decreases n - k,
    {
        proof {
            lemma_col_facts(k as int, height as int);
            lemma_reconstructed_len(matrix.values@, height as nat, k as nat);
        }
        let row: i64 = if k >= height {
            pixels[k - height] as i64
        } else {
            0
        };
        let col: i64 = if y != 0 {
            pixels[k - 1] as i64
        } else {
            0
        };
        let diag: i64 = if k >= height && y != 0 {
            pixels[k - height - 1] as i64
        } else {
            0
        };
        let v = row + col - diag + matrix.values[k] as i64;
        let p: u8 = if v < 0 {
            0
        } else if v > 255 {
            255
        } else {
            v as u8
        };
        pixels.push(p);
        proof {
            lemma_mod_step(k as int, height as int);
        }
        y = if y + 1 == height {
            0
        } else {
            y + 1
        };
        k += 1;
    }
    pixels
}

} // verus!
