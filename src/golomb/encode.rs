//! Golomb-Rice coding of a row-major integer matrix, such as the
//! prediction errors of an image.

use vstd::prelude::*;
use vstd::arithmetic::power2::is_pow2;
use crate::custom_encode::{
    custom_decode, custom_encode as encode_pixels, golomb_bits, golomb_decode,
    is_chosen_divisor, lemma_golomb_round_trip, magnitude_sum, CustomPixel, GolombError,
};

verus! {

/// A matrix of `rows` by `cols` integers, stored row by row.
pub struct IntMatrix {
    pub rows: usize,
    pub cols: usize,
    pub values: Vec<i32>,
}

impl IntMatrix {
    /// The storage holds exactly `rows * cols` values.
    pub open spec fn wf(&self) -> bool {
        self.values.len() == self.rows * self.cols
    }
}

/// A Golomb-Rice encoded matrix: divisor, bit stream and shape.
pub struct CustomGolombEncodedImage {
    pub m: u8,
    pub encoded_bits: Vec<u8>,
    pub shape: (usize, usize),
}

/// The sign and magnitude of `v`.
pub open spec fn pixel_of(v: i32) -> CustomPixel {
    CustomPixel { sign: v < 0, value: (if v < 0 { -(v as int) } else { v as int }) as u8 }
}

/// The integer that a sign and magnitude stand for.
pub open spec fn value_of(p: CustomPixel) -> i32 {
    if p.sign {
        -(p.value as int) as i32
    } else {
        p.value as i32
    }
}

/// Every value lies in `-255..=255`.
pub open spec fn magnitudes_fit(values: Seq<i32>) -> bool {
    forall|i: int| 0 <= i < values.len() ==> -255 <= #[trigger] values[i] <= 255
}

pub open spec fn pixels_of(values: Seq<i32>) -> Seq<CustomPixel> {
    values.map_values(|v: i32| pixel_of(v))
}

pub open spec fn values_of(pixels: Seq<CustomPixel>) -> Seq<i32> {
    pixels.map_values(|p: CustomPixel| value_of(p))
}

impl CustomGolombEncodedImage {
    /// Length of the bit stream.
    pub fn bits(&self) -> (n: usize)
        ensures
            n == self.encoded_bits.len(),
    {
        self.encoded_bits.len()
    }

    /// Decodes the stream back into a matrix of the recorded shape.
    pub fn decode(&self) -> (r: Result<IntMatrix, GolombError>)
        requires
            self.shape.0 * self.shape.1 <= usize::MAX,
        ensures
            match golomb_decode(self.encoded_bits@, self.m as nat) {
                Err(e) => r == Err::<IntMatrix, GolombError>(e),
                Ok(ps) => if ps.len() == self.shape.0 * self.shape.1 {
                    &&& r is Ok
                    &&& r->Ok_0.rows == self.shape.0
                    &&& r->Ok_0.cols == self.shape.1
                    &&& r->Ok_0.values@ == values_of(ps)
                } else {
                    r == Err::<IntMatrix, GolombError>(
                        GolombError::ShapeMismatch {
                            expected: (self.shape.0 * self.shape.1) as usize,
                            found: ps.len() as usize,
                        },
                    )
                },
            },
    {
        custom_decode_matrix(self)
    }
}

/// Encodes a matrix, choosing the divisor from the mean magnitude. Every
/// value must lie in `-255..=255`.
pub fn custom_encode(matrix: &IntMatrix) -> (r: Result<CustomGolombEncodedImage, GolombError>)
    ensures
        match r {
            Ok(img) => {
                &&& matrix.values.len() > 0
                &&& magnitudes_fit(matrix.values@)
                &&& is_chosen_divisor(
                    img.m as nat,
                    magnitude_sum(pixels_of(matrix.values@)),
                    matrix.values.len() as nat,
                )
                &&& img.encoded_bits@ == golomb_bits(pixels_of(matrix.values@), img.m as nat)
                &&& img.shape == (matrix.rows, matrix.cols)
            },
            Err(GolombError::MagnitudeOutOfRange { index }) => {
                &&& index < matrix.values.len()
                &&& !magnitudes_fit(seq![matrix.values@[index as int]])
                &&& magnitudes_fit(matrix.values@.subrange(0, index as int))
            },
            Err(e) => matrix.values.len() == 0 && magnitudes_fit(matrix.values@) && e
                == GolombError::EmptyInput,
        },
{
    let mut pixels: Vec<CustomPixel> = Vec::new();
    let mut i: usize = 0;
    while i < matrix.values.len()
        invariant
            i <= matrix.values.len(),
            magnitudes_fit(matrix.values@.subrange(0, i as int)),
            pixels@ == pixels_of(matrix.values@.subrange(0, i as int)),
        decreases matrix.values.len() - i,
    {
        let v = matrix.values[i];
        if v < -255 || v > 255 {
            assert(!magnitudes_fit(seq![matrix.values@[i as int]])) by {
                assert(seq![matrix.values@[i as int]][0] == v);
            }
            return Err(GolombError::MagnitudeOutOfRange { index: i });
        }
        let magnitude: u8 = if v < 0 {
            (-v) as u8
        } else {
            v as u8
        };
        pixels.push(CustomPixel { sign: v < 0, value: magnitude });
        i += 1;
        assert(pixels@ =~= pixels_of(matrix.values@.subrange(0, i as int)));
        assert forall|j: int| 0 <= j < i implies -255 <= #[trigger] matrix.values@.subrange(
            0,
            i as int,
        )[j] <= 255 by {
            if j < i - 1 {
                assert(matrix.values@.subrange(0, i as int)[j] == matrix.values@.subrange(
                    0,
                    i - 1,
                )[j]);
            }
        }
    }
    assert(matrix.values@.subrange(0, i as int) =~= matrix.values@);
    match encode_pixels(pixels.as_slice()) {
        Ok((m, encoded_bits)) => Ok(
            CustomGolombEncodedImage { m, encoded_bits, shape: (matrix.rows, matrix.cols) },
        ),
        Err(e) => Err(e),
    }
}

fn custom_decode_matrix(data: &CustomGolombEncodedImage) -> (r: Result<IntMatrix, GolombError>)
    requires
        data.shape.0 * data.shape.1 <= usize::MAX,
    ensures
        match golomb_decode(data.encoded_bits@, data.m as nat) {
            Err(e) => r == Err::<IntMatrix, GolombError>(e),
            Ok(ps) => if ps.len() == data.shape.0 * data.shape.1 {
                &&& r is Ok
                &&& r->Ok_0.rows == data.shape.0
                &&& r->Ok_0.cols == data.shape.1
                &&& r->Ok_0.values@ == values_of(ps)
            } else {
                r == Err::<IntMatrix, GolombError>(
                    GolombError::ShapeMismatch {
                        expected: (data.shape.0 * data.shape.1) as usize,
                        found: ps.len() as usize,
                    },
                )
            },
        },
{
    let pixels = match custom_decode(data.encoded_bits.as_slice(), data.m) {
        Ok(p) => p,
        Err(e) => {
            return Err(e);
        },
    };
    let expected = data.shape.0 * data.shape.1;
    if pixels.len() != expected {
        return Err(GolombError::ShapeMismatch { expected, found: pixels.len() });
    }
    let mut values: Vec<i32> = Vec::new();
    let mut i: usize = 0;
    while i < pixels.len()
        invariant
            i <= pixels.len(),
            values@ == values_of(pixels@.subrange(0, i as int)),
        decreases pixels.len() - i,
    {
        let p = pixels[i];
        let v: i32 = if p.sign {
            -(p.value as i32)
        } else {
            p.value as i32
        };
        values.push(v);
        i += 1;
        assert(values@ =~= values_of(pixels@.subrange(0, i as int)));
    }
    assert(pixels@.subrange(0, i as int) =~= pixels@);
    Ok(IntMatrix { rows: data.shape.0, cols: data.shape.1, values })
}

/// Decoding the stream that the encoder wrote for values in `-255..=255`
/// gives back the same values, with any power-of-two divisor.
pub proof fn lemma_matrix_round_trip(values: Seq<i32>, m: nat)
    requires
        magnitudes_fit(values),
        is_pow2(m as int),
    ensures
        golomb_decode(golomb_bits(pixels_of(values), m), m) == Ok::<
            Seq<CustomPixel>,
            GolombError,
        >(pixels_of(values)),
        values_of(pixels_of(values)) == values,
{
    lemma_golomb_round_trip(pixels_of(values), m);
    assert(values_of(pixels_of(values)) =~= values);
}

} // verus!
