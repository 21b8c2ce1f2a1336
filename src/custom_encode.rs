//! Golomb-Rice coding of signed magnitudes with a separate sign bit.
//!
//! Each sample becomes: its sign bit (1 for negative), its quotient by the
//! divisor `m` in unary (that many zeros, then a one), and its remainder as
//! a `log2(m)`-bit binary field. The divisor is always a power of two.

use vstd::prelude::*;
use vstd::arithmetic::power2::{is_pow2, pow2};
use crate::bits::{binary_field, bits_value, is_bit_seq, zero_bits, lemma_binary_field_len,
    lemma_field_value, push_field};

verus! {

/// A sample split into a sign and an 8-bit magnitude.
#[derive(Clone, Copy, Debug, PartialEq, Eq, Structural)]
pub struct CustomPixel {
    pub sign: bool,
    pub value: u8,
}

/// Why a Golomb-Rice stream or its parameters were refused.
#[derive(Clone, Copy, Debug, PartialEq, Eq, Structural)]
pub enum GolombError {
    /// The divisor cannot be chosen from an empty sample.
    EmptyInput,
    /// The divisor is not a power of two.
    InvalidDivisor,
    /// The codeword starting at bit `start` runs past the end of the stream.
    InsufficientBits { start: usize },
    /// The codeword starting at bit `start` holds an element that is not 0 or 1.
    InvalidBit { start: usize },
    /// The codeword starting at bit `start` spells a magnitude above 255.
    ValueOutOfRange { start: usize },
    /// The value at `index` has a magnitude above 255.
    MagnitudeOutOfRange { index: usize },
    /// The stream holds `found` samples where the shape asks for `expected`.
    ShapeMismatch { expected: usize, found: usize },
}

/// `floor(log2(m))`; for a power of two, the exponent.
pub open spec fn log2(m: nat) -> nat
    decreases m,
{
    if m <= 1 {
        0
    } else {
        1 + log2(m / 2)
    }
}

pub open spec fn sign_bit(p: CustomPixel) -> u8 {
    if p.sign {
        1
    } else {
        0
    }
}

/// The bits of one sample under divisor `m`.
pub open spec fn codeword(p: CustomPixel, m: nat) -> Seq<u8> {
    seq![sign_bit(p)] + zero_bits(p.value as nat / m) + seq![1u8] + binary_field(
        p.value as nat % m,
        log2(m),
    )
}

/// The codewords of all samples of `s`, in order.
pub open spec fn golomb_bits(s: Seq<CustomPixel>, m: nat) -> Seq<u8>
    decreases s.len(),
{
    if s.len() == 0 {
        seq![]
    } else {
        codeword(s[0], m) + golomb_bits(s.drop_first(), m)
    }
}

/// Number of consecutive zero bits from position `i` on.
pub open spec fn zero_run(bits: Seq<u8>, i: int) -> nat
    decreases bits.len() - i,
{
    if 0 <= i < bits.len() && bits[i] == 0 {
        1 + zero_run(bits, i + 1)
    } else {
        0
    }
}

/// `ps` in front of the samples of `r`, or the error of `r`.
pub open spec fn prepend(ps: Seq<CustomPixel>, r: Result<Seq<CustomPixel>, GolombError>) -> Result<
    Seq<CustomPixel>,
    GolombError,
> {
    match r {
        Ok(rest) => Ok(ps + rest),
        Err(e) => Err(e),
    }
}

/// Decoding of the codewords from bit `i` to the end of `bits`, with divisor `m`.
pub open spec fn decode_from(bits: Seq<u8>, i: int, m: nat) -> Result<
    Seq<CustomPixel>,
    GolombError,
>
    decreases bits.len() - i,
{
    if i < 0 || i >= bits.len() {
        Ok(seq![])
    } else if bits[i] > 1 {
        Err(GolombError::InvalidBit { start: i as usize })
    } else {
        let q = zero_run(bits, i + 1);
        let t = i + 1 + q;
        let b = log2(m);
        if t >= bits.len() || t + 1 + b > bits.len() {
            Err(GolombError::InsufficientBits { start: i as usize })
        } else if bits[t] != 1 || !is_bit_seq(bits.subrange(t + 1, t + 1 + b)) {
            Err(GolombError::InvalidBit { start: i as usize })
        } else {
            let v = q * m + bits_value(bits.subrange(t + 1, t + 1 + b));
            if v > 255 {
                Err(GolombError::ValueOutOfRange { start: i as usize })
            } else {
                prepend(
                    seq![CustomPixel { sign: bits[i] == 1, value: v as u8 }],
                    decode_from(bits, t + 1 + b, m),
                )
            }
        }
    }
}

/// Decoding of a whole stream with divisor `m`.
pub open spec fn golomb_decode(bits: Seq<u8>, m: nat) -> Result<Seq<CustomPixel>, GolombError> {
    if !is_pow2(m as int) {
        Err(GolombError::InvalidDivisor)
    } else {
        decode_from(bits, 0, m)
    }
}

/// Sum of the magnitudes of `s`.
pub open spec fn magnitude_sum(s: Seq<CustomPixel>) -> nat
    decreases s.len(),
{
    if s.len() == 0 {
        0
    } else {
        magnitude_sum(s.drop_last()) + s.last().value as nat
    }
}

/// `m` is the divisor chosen for a sample of `len` magnitudes summing to
/// `sum`: the least power of two that is at least half the mean.
pub open spec fn is_chosen_divisor(m: nat, sum: nat, len: nat) -> bool {
    &&& is_pow2(m as int)
    &&& 2 * m * len >= sum
    &&& (m == 1 || 2 * (m / 2) * len < sum)
}

pub proof fn lemma_pow2_log2(m: nat)
    requires
        is_pow2(m as int),
    ensures
        pow2(log2(m)) == m,
    decreases m,
{
    reveal(is_pow2);
    vstd::arithmetic::power2::lemma2_to64();
    if m > 1 {
        lemma_pow2_log2(m / 2);
        vstd::arithmetic::power2::lemma_pow2_unfold(log2(m));
    }
}

proof fn lemma_log2_le(t: nat, k: nat)
    requires
        t < pow2(k + 1),
    ensures
        log2(t) <= k,
    decreases k,
{
    vstd::arithmetic::power2::lemma2_to64();
    vstd::arithmetic::power2::lemma_pow2_unfold(k + 1);
    if t > 1 && k > 0 {
        lemma_log2_le(t / 2, (k - 1) as nat);
    }
}

proof fn lemma_codeword_len(p: CustomPixel, m: nat)
    requires
        m >= 1,
    ensures
        codeword(p, m).len() == 2 + p.value as nat / m + log2(m),
{
    lemma_binary_field_len(p.value as nat % m, log2(m));
}

proof fn lemma_golomb_bits_push(s: Seq<CustomPixel>, p: CustomPixel, m: nat)
    ensures
        golomb_bits(s.push(p), m) == golomb_bits(s, m) + codeword(p, m),
    decreases s.len(),
{
    if s.len() == 0 {
        assert(s.push(p).drop_first() =~= Seq::<CustomPixel>::empty());
        assert(golomb_bits(s.push(p).drop_first(), m) == Seq::<u8>::empty());
        assert(s.push(p)[0] == p);
        assert(golomb_bits(s.push(p), m) =~= golomb_bits(s, m) + codeword(p, m));
    } else {
        lemma_golomb_bits_push(s.drop_first(), p, m);
        assert(s.push(p).drop_first() =~= s.drop_first().push(p));
        assert(golomb_bits(s.push(p), m) =~= golomb_bits(s, m) + codeword(p, m));
    }
}

proof fn lemma_zero_run_exact(x: Seq<u8>, from: int, q: nat, k: nat)
    requires
        0 <= from,
        from + q < x.len(),
        k <= q,
        forall|j: int| from <= j < from + q ==> x[j] == 0,
        x[from + q] == 1,
    ensures
        zero_run(x, from + k) == q - k,
    decreases q - k,
{
    if k < q {
        lemma_zero_run_exact(x, from, q, k + 1);
    }
}

/// The codewords of `s`, placed after any bits `pre`, decode from there to `s`.
proof fn lemma_decode_after(pre: Seq<u8>, s: Seq<CustomPixel>, m: nat)
    requires
        is_pow2(m as int),
    ensures
        decode_from(pre + golomb_bits(s, m), pre.len() as int, m) == Ok::<
            Seq<CustomPixel>,
            GolombError,
        >(s),
    decreases s.len(),
{
    reveal(is_pow2);
    let x = pre + golomb_bits(s, m);
    if s.len() == 0 {
        assert(s =~= seq![]);
    } else {
        let p = s[0];
        let cw = codeword(p, m);
        let tail = s.drop_first();
        assert(x =~= (pre + cw) + golomb_bits(tail, m));
        lemma_decode_after(pre + cw, tail, m);
        let i = pre.len() as int;
        let q = p.value as nat / m;
        let r = p.value as nat % m;
        let b = log2(m);
        lemma_codeword_len(p, m);
        lemma_binary_field_len(r, b);
        lemma_pow2_log2(m);
        assert(x[i] == sign_bit(p));
        assert forall|j: int| i + 1 <= j < i + 1 + q implies x[j] == 0 by {
            assert(x[j] == cw[j - i]);
        }
        assert(x[i + 1 + q] == cw[1 + q as int]);
        lemma_zero_run_exact(x, i + 1, q, 0);
        let t = i + 1 + q;
        assert(x.subrange(t + 1, t + 1 + b) =~= binary_field(r, b));
        lemma_field_value(r, b);
        vstd::arithmetic::div_mod::lemma_fundamental_div_mod(p.value as int, m as int);
        assert(q * m + r == p.value);
        assert(s =~= seq![p] + tail);
    }
}

/// Decoding what the encoder wrote with a power-of-two divisor gives back
/// the samples.
pub proof fn lemma_golomb_round_trip(s: Seq<CustomPixel>, m: nat)
    requires
        is_pow2(m as int),
    ensures
        golomb_decode(golomb_bits(s, m), m) == Ok::<Seq<CustomPixel>, GolombError>(s),
{
    lemma_decode_after(seq![], s, m);
    assert(seq![] + golomb_bits(s, m) =~= golomb_bits(s, m));
}

/// The exponent of a power of two.
fn exponent_of(m: u8) -> (b: u8)
    requires
        m >= 1,
    ensures
        b as nat == log2(m as nat),
        b <= 7,
{
    let mut t: u8 = m;
    let mut b: u8 = 0;
    proof {
        vstd::arithmetic::power2::lemma2_to64();
        lemma_log2_le(m as nat, 7);
    }
    while t > 1
        invariant
            t >= 1,
            log2(m as nat) == b + log2(t as nat),
            b + log2(t as nat) <= 7,
        decreases t,
    {
        t = t / 2;
        b = b + 1;
    }
    b
}

/// Encodes `data` with divisor `m`: for each sample its sign bit, its
/// quotient in unary and its remainder in `log2(m)` bits.
pub fn custom_encode_inner(data: &[CustomPixel], m: u8) -> (encoded_bits: Vec<u8>)
    requires
        is_pow2(m as int),
    ensures
        encoded_bits@ == golomb_bits(data@, m as nat),
{
    proof {
        reveal(is_pow2);
    }
    let b = exponent_of(m);
    let mut encoded_bits: Vec<u8> = Vec::new();
    let mut i: usize = 0;
    while i < data.len()
        invariant
            m >= 1,
            b as nat == log2(m as nat),
            i <= data.len(),
            encoded_bits@ == golomb_bits(data@.subrange(0, i as int), m as nat),
        decreases data.len() - i,
    {
        let pixel = data[i];
        let q = pixel.value / m;
        let r = pixel.value % m;
        let ghost before = encoded_bits@;
        if pixel.sign {
            encoded_bits.push(1);
        } else {
            encoded_bits.push(0);
        }
        let mut k: u8 = 0;
        while k < q
            invariant
                k <= q,
                encoded_bits@ == before + seq![sign_bit(pixel)] + zero_bits(k as nat),
            decreases q - k,
        {
            encoded_bits.push(0);
            k = k + 1;
            assert(encoded_bits@ =~= before + seq![sign_bit(pixel)] + zero_bits(k as nat));
        }
        encoded_bits.push(1);
        push_field(&mut encoded_bits, r, b);
        proof {
            assert(encoded_bits@ =~= before + codeword(pixel, m as nat));
            lemma_golomb_bits_push(data@.subrange(0, i as int), pixel, m as nat);
            assert(data@.subrange(0, i + 1) =~= data@.subrange(0, i as int).push(pixel));
        }
        i += 1;
    }
    assert(data@.subrange(0, i as int) =~= data@);
    encoded_bits
}

/// Whether `m` is a power of two.
fn is_power_of_two(m: u8) -> (r: bool)
    ensures
        r == is_pow2(m as int),
{
    proof {
        reveal(is_pow2);
    }
    let mut t: u8 = m;
    while t > 1 && t % 2 == 0
        invariant
            is_pow2(m as int) == is_pow2(t as int),
        decreases t,
    {
        proof {
            reveal(is_pow2);
        }
        t = t / 2;
    }
    proof {
        reveal(is_pow2);
    }
    t == 1
}

/// Chooses the divisor for `data` (the least power of two that is at
/// least half the mean magnitude) and encodes `data` with it.
pub fn custom_encode(data: &[CustomPixel]) -> (r: Result<(u8, Vec<u8>), GolombError>)
    ensures
        match r {
            Ok((m, encoded_bits)) => {
                &&& data.len() > 0
                &&& is_chosen_divisor(m as nat, magnitude_sum(data@), data.len() as nat)
                &&& encoded_bits@ == golomb_bits(data@, m as nat)
            },
            Err(e) => data.len() == 0 && e == GolombError::EmptyInput,
        },
{
    if data.len() == 0 {
        return Err(GolombError::EmptyInput);
    }
    let mut sum: u128 = 0;
    let mut i: usize = 0;
    while i < data.len()
        invariant
            i <= data.len(),
            sum == magnitude_sum(data@.subrange(0, i as int)),
            sum <= 255 * i,
        decreases data.len() - i,
    {
        assert(data@.subrange(0, i + 1).drop_last() =~= data@.subrange(0, i as int));
        sum = sum + data[i].value as u128;
        i += 1;
    }
    assert(data@.subrange(0, i as int) =~= data@);
    let len = data.len() as u128;
    assert(len <= 0xffff_ffff_ffff_ffff);
    let mut m: u8 = 1;
    proof {
        reveal(is_pow2);
    }
    assert(2 * (m as int) * len < 0x1_0000_0000_0000_0000_0000_0000_0000_0000) by (nonlinear_arith)
        requires
            m <= 255,
            len <= 0xffff_ffff_ffff_ffff,
    ;
    let mut too_small = 2 * (m as u128) * len < sum;
    while too_small
        invariant
            len <= 0xffff_ffff_ffff_ffff,
            len == data.len(),
            len > 0,
            sum <= 255 * len,
            is_pow2(m as int),
            m == 1 || 2 * ((m / 2) as int) * len < sum,
            too_small == (2 * (m as int) * len < sum),
        decreases 256 - m,
    {
        assert(2 * m < 255) by (nonlinear_arith)
            requires
                2 * (m as int) * len < sum,
                sum <= 255 * len,
                len > 0,
        ;
        proof {
            reveal(is_pow2);
        }
        m = m * 2;
        assert(2 * (m as int) * len < 0x1_0000_0000_0000_0000_0000_0000_0000_0000) by (nonlinear_arith)
            requires
                m <= 255,
                len <= 0xffff_ffff_ffff_ffff,
        ;
        too_small = 2 * (m as u128) * len < sum;
    }
    let encoded_bits = custom_encode_inner(data, m);
    Ok((m, encoded_bits))
}

/// Decodes a stream written with divisor `m` into its samples.
pub fn custom_decode(data: &[u8], m: u8) -> (r: Result<Vec<CustomPixel>, GolombError>)
    ensures
        match r {
            Ok(pixels) => golomb_decode(data@, m as nat) == Ok::<
                Seq<CustomPixel>,
                GolombError,
            >(pixels@),
            Err(e) => golomb_decode(data@, m as nat) == Err::<Seq<CustomPixel>, GolombError>(e),
        },
{
    if !is_power_of_two(m) {
        return Err(GolombError::InvalidDivisor);
    }
    proof {
        reveal(is_pow2);
        vstd::arithmetic::power2::lemma2_to64();
    }
    let b = exponent_of(m);
    let width = b as usize;
    let mut decoded_pixels: Vec<CustomPixel> = Vec::new();
    let mut i: usize = 0;
    while i < data.len()
        invariant
            is_pow2(m as int),
            m >= 1,
            width == log2(m as nat),
            width <= 7,
            i <= data.len(),
            golomb_decode(data@, m as nat) == prepend(
                decoded_pixels@,
                decode_from(data@, i as int, m as nat),
            ),
        decreases data.len() - i,
    {
        let start = i;
        let sign = data[i];
        if sign > 1 {
            return Err(GolombError::InvalidBit { start });
        }
        let mut j: usize = i + 1;
        while j < data.len() && data[j] == 0
            invariant
                i + 1 <= j <= data.len(),
                zero_run(data@, i + 1) == (j - (i + 1)) + zero_run(data@, j as int),
            decreases data.len() - j,
        {
            j += 1;
        }
        let q = j - (i + 1);
        if j >= data.len() || data.len() - (j + 1) < width {
            return Err(GolombError::InsufficientBits { start });
        }
        if data[j] != 1 {
            return Err(GolombError::InvalidBit { start });
        }
        let ghost field = data@.subrange(j + 1, j + 1 + width);
        let mut r: u32 = 0;
        let mut k: usize = 0;
        while k < width
            invariant
                golomb_decode(data@, m as nat) == prepend(
                    decoded_pixels@,
                    decode_from(data@, i as int, m as nat),
                ),
                i < j < data.len(),
                start == i,
                data[i as int] <= 1,
                data[j as int] == 1,
                zero_run(data@, i + 1) == j - (i + 1),
                width == log2(m as nat),
                j + 1 + width <= data.len(),
                width <= 7,
                k <= width,
                field == data@.subrange(j + 1, j + 1 + width),
                is_bit_seq(data@.subrange(j + 1, j + 1 + k)),
                r as nat == bits_value(data@.subrange(j + 1, j + 1 + k)),
            decreases width - k,
        {
            let bit = data[j + 1 + k];
            if bit > 1 {
                assert(field[k as int] == bit);
                assert(!is_bit_seq(field));
                return Err(GolombError::InvalidBit { start });
            }
            proof {
                let s = data@.subrange(j + 1, j + 1 + k);
                crate::bits::lemma_bits_value_bound(s);
                vstd::arithmetic::power2::lemma_pow2_strictly_increases(k as nat, 8);
                vstd::arithmetic::power2::lemma2_to64();
                assert(data@.subrange(j + 1, j + 2 + k).drop_last() =~= s);
            }
            r = r * 2 + bit as u32;
            k += 1;
        }
        assert(data@.subrange(j + 1, j + 1 + k) =~= field);
        proof {
            crate::bits::lemma_bits_value_bound(field);
            vstd::arithmetic::power2::lemma_pow2_strictly_increases(width as nat, 8);
            vstd::arithmetic::power2::lemma2_to64();
        }
        if q > 255 {
            assert(q * m >= q) by (nonlinear_arith)
                requires
                    m >= 1,
            ;
            return Err(GolombError::ValueOutOfRange { start });
        }
        assert(q * m <= 255 * 255) by (nonlinear_arith)
            requires
                q <= 255,
                m <= 255,
        ;
        let v = q * (m as usize) + (r as usize);
        if v > 255 {
            return Err(GolombError::ValueOutOfRange { start });
        }
        let value = v as u8;
        let ghost before = decoded_pixels@;
        decoded_pixels.push(CustomPixel { sign: sign == 1, value });
        proof {
            assert(decoded_pixels@ =~= before + seq![CustomPixel { sign: sign == 1, value }]);
            let rest = decode_from(data@, j + 1 + width, m as nat);
            match rest {
                Ok(tail) => {
                    assert(before + (seq![CustomPixel { sign: sign == 1, value }] + tail)
                        =~= decoded_pixels@ + tail);
                },
                Err(_) => {},
            }
        }
        i = j + 1 + width;
    }
    Ok(decoded_pixels)
}

} // verus!
