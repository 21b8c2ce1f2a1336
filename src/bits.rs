//! Bit sequences and their packed byte form.
//!
//! A bit sequence is a `Vec<u8>` whose elements are each 0 or 1. Packing
//! groups them by eight, most significant bit first, and zero-fills the
//! last byte.

use vstd::prelude::*;

verus! {

/// Every element of `s` is 0 or 1.
pub open spec fn is_bit_seq(s: Seq<u8>) -> bool {
    forall|i: int| 0 <= i < s.len() ==> #[trigger] s[i] <= 1
}

/// The number that the bits of `s` spell, most significant bit first.
pub open spec fn bits_value(s: Seq<u8>) -> nat
    decreases s.len(),
{
    if s.len() == 0 {
        0
    } else {
        2 * bits_value(s.drop_last()) + s.last() as nat
    }
}

/// The `width` lowest bits of `r`, most significant bit first.
pub open spec fn binary_field(r: nat, width: nat) -> Seq<u8>
    decreases width,
{
    if width == 0 {
        seq![]
    } else {
        binary_field(r / 2, (width - 1) as nat).push((r % 2) as u8)
    }
}

/// `n` zero bits.
pub open spec fn zero_bits(n: nat) -> Seq<u8> {
    Seq::new(n, |_i: int| 0u8)
}

/// The bits that byte `k` of the packed form of `bits` holds: eight of
/// them, the last group padded with zeros.
pub open spec fn byte_group(bits: Seq<u8>, k: int) -> Seq<u8> {
    let start = 8 * k;
    let end = if start + 8 <= bits.len() { start + 8 } else { bits.len() as int };
    bits.subrange(start, end) + zero_bits((8 - (end - start)) as nat)
}

/// Number of bytes that hold `n` bits.
pub open spec fn packed_len(n: nat) -> nat {
    (n + 7) / 8
}

/// The packed form of a bit sequence.
pub open spec fn packed(bits: Seq<u8>) -> Seq<u8> {
    Seq::new(packed_len(bits.len()), |k: int| bits_value(byte_group(bits, k)) as u8)
}

/// The first `n` bits that `bytes` hold, most significant bit of each byte first.
pub open spec fn unpacked(bytes: Seq<u8>, n: nat) -> Seq<u8> {
    Seq::new(n, |j: int| binary_field(bytes[j / 8] as nat, 8)[j % 8])
}

pub proof fn lemma_binary_field_len(r: nat, width: nat)
    ensures
        binary_field(r, width).len() == width,
        is_bit_seq(binary_field(r, width)),
    decreases width,
{
    if width > 0 {
        lemma_binary_field_len(r / 2, (width - 1) as nat);
    }
}

pub proof fn lemma_bits_value_bound(s: Seq<u8>)
    requires
        is_bit_seq(s),
    ensures
        bits_value(s) < vstd::arithmetic::power2::pow2(s.len()),
    decreases s.len(),
{
    if s.len() > 0 {
        lemma_bits_value_bound(s.drop_last());
        vstd::arithmetic::power2::lemma_pow2_unfold(s.len());
    } else {
        vstd::arithmetic::power2::lemma2_to64();
    }
}

/// A sequence of at most seven bits has a value below 128.
proof fn lemma_short_value(s: Seq<u8>)
    requires
        is_bit_seq(s),
        s.len() <= 7,
    ensures
        bits_value(s) < 128,
{
    lemma_bits_value_bound(s);
    vstd::arithmetic::power2::lemma2_to64();
    if s.len() < 7 {
        vstd::arithmetic::power2::lemma_pow2_strictly_increases(s.len(), 7);
    }
}

/// A field read back gives the number written, when it fits.
pub proof fn lemma_field_value(r: nat, width: nat)
    requires
        r < vstd::arithmetic::power2::pow2(width),
    ensures
        bits_value(binary_field(r, width)) == r,
    decreases width,
{
    if width == 0 {
        vstd::arithmetic::power2::lemma2_to64();
    } else {
        vstd::arithmetic::power2::lemma_pow2_unfold(width);
        lemma_field_value(r / 2, (width - 1) as nat);
        assert(binary_field(r, width).drop_last() == binary_field(r / 2, (width - 1) as nat));
    }
}

/// A bit sequence is the field of its own value.
pub proof fn lemma_value_field(s: Seq<u8>)
    requires
        is_bit_seq(s),
    ensures
        binary_field(bits_value(s), s.len()) == s,
    decreases s.len(),
{
    if s.len() > 0 {
        lemma_value_field(s.drop_last());
        assert(binary_field(bits_value(s), s.len()) =~= s);
    }
}

/// Appends the `width` lowest bits of `r`, most significant first.
pub(crate) fn push_field(out: &mut Vec<u8>, r: u8, width: u8)
    ensures
        final(out)@ == old(out)@ + binary_field(r as nat, width as nat),
    decreases width,
{
    if width > 0 {
        push_field(out, r / 2, width - 1);
        out.push(r % 2);
        assert(final(out)@ =~= old(out)@ + binary_field(r as nat, width as nat));
    } else {
        assert(final(out)@ =~= old(out)@ + binary_field(r as nat, width as nat));
    }
}

/// The first `n` bits held by `bytes`, most significant bit of each byte
/// first. The caller supplies `n`, as padding bits cannot be told apart.
pub fn unpack_bits(bytes: &[u8], n: usize) -> (bits: Vec<u8>)
    requires
        n <= 8 * bytes.len(),
    ensures
        bits@ == unpacked(bytes@, n as nat),
{
    let mut bits: Vec<u8> = Vec::new();
    let mut k: usize = 0;
    while k < bytes.len() && bits.len() < n
        invariant
            k <= bytes.len(),
            n <= 8 * bytes.len(),
            bits.len() == 8 * k,
            forall|j: int|
                0 <= j < bits.len() ==> #[trigger] bits@[j] == binary_field(
                    bytes@[j / 8] as nat,
                    8,
                )[j % 8],
        decreases bytes.len() - k,
    {
        let ghost before = bits@;
        push_field(&mut bits, bytes[k], 8);
        proof {
            lemma_binary_field_len(bytes@[k as int] as nat, 8);
            assert forall|j: int| 0 <= j < bits.len() implies #[trigger] bits@[j] == binary_field(
                bytes@[j / 8] as nat,
                8,
            )[j % 8] by {
                if j >= 8 * k {
                    assert(j / 8 == k);
                    assert(bits@[j] == binary_field(bytes@[k as int] as nat, 8)[j - 8 * k]);
                } else {
                    assert(bits@[j] == before[j]);
                }
            }
        }
        k += 1;
    }
    bits.truncate(n);
    assert(bits@ =~= unpacked(bytes@, n as nat));
    bits
}

/// Unpacking the packed form of a bit sequence, with its length, gives it back.
pub proof fn lemma_unpack_pack(bits: Seq<u8>)
    requires
        is_bit_seq(bits),
    ensures
        unpacked(packed(bits), bits.len()) == bits,
{
    let p = packed(bits);
    assert forall|j: int| 0 <= j < bits.len() implies #[trigger] unpacked(p, bits.len())[j]
        == bits[j] by {
        let k = j / 8;
        let g = byte_group(bits, k);
        assert(g.len() == 8);
        assert(is_bit_seq(g)) by {
            assert forall|m: int| 0 <= m < g.len() implies #[trigger] g[m] <= 1 by {
                if 8 * k + m < bits.len() {
                    assert(g[m] == bits[8 * k + m]);
                }
            }
        }
        lemma_bits_value_bound(g);
        vstd::arithmetic::power2::lemma2_to64();
        lemma_value_field(g);
        assert(p[k] as nat == bits_value(g));
        assert(g[j % 8] == bits[j]);
    }
    assert(unpacked(p, bits.len()) =~= bits);
}

/// Packs a bit sequence into bytes, most significant bit first; the bits
/// of a last incomplete group sit at the top of its byte and the rest is zero.
pub fn pack_bits(encoded_bits: &[u8]) -> (packed_bytes: Vec<u8>)
    requires
        is_bit_seq(encoded_bits@),
    ensures
        packed_bytes@ == packed(encoded_bits@),
{
    let mut packed_bytes: Vec<u8> = Vec::new();
    let mut current_byte: u8 = 0;
    let mut bit_count: usize = 0;
    let mut i: usize = 0;
    while i < encoded_bits.len()
        invariant
            is_bit_seq(encoded_bits@),
            i <= encoded_bits.len(),
            bit_count < 8,
            i == 8 * packed_bytes.len() + bit_count,
            current_byte as nat == bits_value(encoded_bits@.subrange(i - bit_count, i as int)),
            forall|k: int|
                0 <= k < packed_bytes.len() ==> #[trigger] packed_bytes@[k] == bits_value(
                    byte_group(encoded_bits@, k),
                ) as u8,
        decreases encoded_bits.len() - i,
    {
        let bit = encoded_bits[i];
        proof {
            let s = encoded_bits@.subrange(i - bit_count, i as int);
            lemma_short_value(s);
            assert(encoded_bits@.subrange(i - bit_count, i + 1).drop_last() =~= s);
        }
        current_byte = current_byte * 2 + bit;
        bit_count += 1;
        i += 1;
        if bit_count == 8 {
            proof {
                let k = packed_bytes.len() as int;
                assert(byte_group(encoded_bits@, k) =~= encoded_bits@.subrange(
                    i - 8,
                    i as int,
                ));
            }
            packed_bytes.push(current_byte);
            current_byte = 0;
            bit_count = 0;
        }
    }
    if bit_count != 0 {
        let ghost s = encoded_bits@.subrange(i - bit_count, i as int);
        assert(is_bit_seq(s)) by {
            assert forall|j: int| 0 <= j < s.len() implies #[trigger] s[j] <= 1 by {
                assert(s[j] == encoded_bits@[i - bit_count + j]);
            }
        }
        let mut filled: usize = bit_count;
        while filled < 8
            invariant
                is_bit_seq(s),
                s.len() == bit_count,
                bit_count <= filled <= 8,
                0 < bit_count < 8,
                current_byte as nat == bits_value(s + zero_bits((filled - bit_count) as nat)),
            decreases 8 - filled,
        {
            proof {
                let t = s + zero_bits((filled - bit_count) as nat);
                assert forall|j: int| 0 <= j < t.len() implies #[trigger] t[j] <= 1 by {
                    if j < s.len() {
                        assert(t[j] == s[j]);
                    }
                }
                lemma_short_value(t);
                assert((s + zero_bits((filled + 1 - bit_count) as nat)).drop_last() =~= t);
            }
            current_byte = current_byte * 2;
            filled += 1;
        }
        proof {
            let k = packed_bytes.len() as int;
            assert(byte_group(encoded_bits@, k) =~= s + zero_bits((8 - bit_count) as nat));
        }
        packed_bytes.push(current_byte);
    }
    assert(packed_bytes@ =~= packed(encoded_bits@));
    packed_bytes
}

} // verus!
