use eet51_lab3::bits::{pack_bits, unpack_bits};
use eet51_lab3::histogram::Histogram;

#[test]
fn counts_and_total_agree() {
    let mut h: Histogram<u8> = Histogram::new();
    for v in [5u8, 3, 5, 9, 5, 3] {
        h.add(v);
    }
    assert_eq!(h.total_count(), 6);
    assert_eq!(h.counts(), &vec![(3, 2), (5, 3), (9, 1)]);
    let sum: usize = h.counts().iter().map(|e| e.1).sum();
    assert_eq!(sum, h.total_count());
    assert_eq!(h.count_of(5), 3);
    assert_eq!(h.count_of(4), 0);
}

#[test]
fn one_distinct_symbol_has_zero_entropy() {
    let h = Histogram::from_symbols(&[42i32; 10]);
    assert_eq!(h.counts(), &vec![(42, 10)]);
    let total = h.total_count() as f64;
    let entropy: f64 = h
        .counts()
        .iter()
        .map(|&(_, c)| {
            let p = c as f64 / total;
            -p * p.log2()
        })
        .sum();
    assert_eq!(entropy, 0.0);
}

#[test]
fn entropy_of_two_equal_symbols_is_one_bit() {
    let h = Histogram::from_symbols(&[true, false, true, false]);
    let total = h.total_count() as f64;
    let entropy: f64 = h
        .counts()
        .iter()
        .map(|&(_, c)| {
            let p = c as f64 / total;
            -p * p.log2()
        })
        .sum();
    assert!((entropy - 1.0).abs() < 1e-12);
}

#[test]
fn full_range_covers_every_value() {
    let mut h: Histogram<u8> = Histogram::default();
    for _ in 0..3 {
        h.add(10);
    }
    h.add(200);
    let rows = h.full_range(0, 255);
    assert_eq!(rows.len(), 256);
    let total = h.total_count() as f64;
    let mut zero_rows = 0;
    for (i, &(value, count)) in rows.iter().enumerate() {
        assert_eq!(value as usize, i);
        let frequency = count as f64 / total;
        if value == 10 {
            assert_eq!(frequency, 0.75);
        } else if value == 200 {
            assert_eq!(frequency, 0.25);
        } else {
            assert_eq!(frequency, 0.0);
            zero_rows += 1;
        }
    }
    assert_eq!(zero_rows, 254);
}

#[test]
fn full_range_of_signed_values() {
    let h = Histogram::from_symbols(&[-2i32, 0, 0, 3]);
    assert_eq!(h.full_range(-3, 1), vec![(-3, 0), (-2, 1), (-1, 0), (0, 2), (1, 0)]);
    assert!(h.full_range(2, 1).is_empty());
}

#[test]
fn pack_pads_last_byte() {
    assert_eq!(pack_bits(&[1, 0, 1]), vec![0b10100000]);
    assert_eq!(pack_bits(&[1, 1, 1, 1, 0, 0, 0, 0, 1]), vec![0b11110000, 0b10000000]);
    assert!(pack_bits(&[]).is_empty());
}

#[test]
fn unpack_reads_back_packed_bits() {
    let bits = vec![1u8, 0, 0, 1, 1, 1, 0, 1, 0, 1, 1];
    let bytes = pack_bits(&bits);
    assert_eq!(bytes, vec![0b10011101, 0b01100000]);
    assert_eq!(unpack_bits(&bytes, bits.len()), bits);
    assert_eq!(unpack_bits(&[0xff], 3), vec![1, 1, 1]);
}
