use std::collections::HashMap;

use eet51_lab3::histogram::Histogram;
use eet51_lab3::code_table::{CodeTable, HuffmanError};
use eet51_lab3::huffman::{
    build_histogram, build_huffman_tree, huffman_code_table, huffman_encode, huffman_tree,
    HuffmanNode,
};

const TEXT: &str = "this is an example of a huffman tree";

fn leaf_count(node: &HuffmanNode<u8>) -> usize {
    match node {
        HuffmanNode::Internal { left, right } => leaf_count(left) + leaf_count(right),
        HuffmanNode::Leaf { .. } => 1,
    }
}

#[test]
fn test_huffman_encode() {
    let input_str = "this is an example of a huffman tree";
    let encoded_data = huffman_encode(input_str.as_bytes());
    println!("{:?}", build_histogram(input_str.as_bytes()));

    // A reference code table for this text. Ties between equal
    // frequencies may be broken either way, so the lengths are what a
    // Huffman code must reproduce.
    let expected_codes: HashMap<u8, Vec<u8>> = [
        (b' ', vec![1, 1, 1]),
        (b'a', vec![0, 1, 0]),
        (b'e', vec![0, 0, 0]),
        (b'f', vec![1, 1, 0, 1]),
        (b'h', vec![1, 0, 1, 0]),
        (b'i', vec![1, 0, 0, 0]),
        (b'm', vec![0, 1, 1, 1]),
        (b'n', vec![0, 0, 1, 0]),
        (b's', vec![1, 0, 1, 1]),
        (b't', vec![0, 1, 1, 0]),
        (b'l', vec![1, 1, 0, 0, 1]),
        (b'o', vec![0, 0, 1, 1, 0]),
        (b'p', vec![1, 0, 0, 1, 1]),
        (b'r', vec![1, 1, 0, 0, 0]),
        (b'u', vec![0, 0, 1, 1, 1]),
        (b'x', vec![1, 0, 0, 1, 0]),
    ]
    .iter()
    .cloned()
    .collect();

    let tree = build_huffman_tree(&build_histogram(input_str.as_bytes()));
    let code_map = CodeTable::from_tree(&tree);

    for (byte, code) in expected_codes.iter() {
        assert_eq!(code_map.code(*byte).unwrap().len(), code.len());
    }
    let expected_bits: usize = input_str
        .bytes()
        .map(|b| expected_codes[&b].len())
        .sum();
    assert_eq!(encoded_data.len(), expected_bits);
}

#[test]
fn code_lengths_follow_frequencies() {
    let freqs = build_histogram(TEXT.as_bytes());
    let table = huffman_code_table(TEXT.as_bytes());
    let count = |b: u8| freqs.iter().find(|e| e.0 == b).unwrap().1;
    assert_eq!(count(b' '), 7);
    assert_eq!(table.code(b' ').unwrap().len(), 3);
    for b in [b'l', b'o', b'p', b'r', b'u', b'x'] {
        assert_eq!(count(b), 1);
        assert_eq!(table.code(b).unwrap().len(), 5);
    }
}

#[test]
fn frequency_table_is_sorted_with_counts() {
    let freqs = build_histogram(&[3u8, 1, 3, 2, 3, 1]);
    assert_eq!(freqs, vec![(1, 2), (2, 1), (3, 3)]);
}

#[test]
fn tree_leaves_are_the_distinct_symbols() {
    let tree = huffman_tree(TEXT.as_bytes());
    assert_eq!(leaf_count(&tree), 16);
}

#[test]
fn huffman_round_trip_text() {
    let table = huffman_code_table(TEXT.as_bytes());
    let bits = table.encode(TEXT.as_bytes()).unwrap();
    assert_eq!(bits, huffman_encode(TEXT.as_bytes()));
    assert!(bits.iter().all(|&b| b <= 1));
    let decoded = table.decode(&bits).unwrap();
    assert_eq!(decoded, TEXT.as_bytes().to_vec());
}

#[test]
fn huffman_round_trip_signed_symbols() {
    let data: Vec<i32> = vec![0, -1, 1, 0, 0, 2, -1, 0, 255, -255, 0];
    let table = huffman_code_table(&data);
    let bits = table.encode(&data).unwrap();
    assert_eq!(table.decode(&bits).unwrap(), data);
}

#[test]
fn generated_codes_are_prefix_free() {
    let table = huffman_code_table(TEXT.as_bytes());
    let entries = table.entries();
    assert_eq!(entries.len(), 16);
    for (i, (_, a)) in entries.iter().enumerate() {
        assert!(!a.is_empty());
        for (j, (_, b)) in entries.iter().enumerate() {
            if i != j {
                assert!(!(a.len() <= b.len() && b[..a.len()] == a[..]));
            }
        }
    }
}

#[test]
fn weighted_path_length_is_at_least_entropy() {
    for text in [TEXT, "aaaaaaab", "abcdefgh", "aab"] {
        let data = text.as_bytes();
        let hist = Histogram::from_symbols(data);
        let table = huffman_code_table(data);
        let total = hist.total_count() as f64;
        let mut entropy = 0.0f64;
        let mut wpl = 0.0f64;
        for &(sym, count) in hist.counts().iter() {
            let p = count as f64 / total;
            entropy -= p * p.log2();
            wpl += p * table.code(sym).unwrap().len() as f64;
        }
        assert!(wpl >= entropy - 1e-9);
        assert!(wpl < entropy + 1.0 + 1e-9);
    }
}

#[test]
fn weighted_path_length_of_text() {
    let data = TEXT.as_bytes();
    let bits = huffman_encode(data);
    // 7 spaces and 4 'a', 4 'e' with 3 bits, 7 symbols of 4 bits with
    // 2 occurrences each, and 6 symbols of 5 bits with 1 occurrence each.
    assert_eq!(bits.len(), 3 * 15 + 4 * 15 + 5 * 6);
}

#[test]
fn single_symbol_alphabet_uses_one_bit_code() {
    let data = [7u8; 4];
    let table = huffman_code_table(&data);
    assert_eq!(table.code(7).unwrap(), &vec![0u8]);
    let bits = table.encode(&data).unwrap();
    assert_eq!(bits, vec![0, 0, 0, 0]);
    assert_eq!(table.decode(&bits).unwrap(), data.to_vec());
    assert_eq!(huffman_encode(&data), vec![0, 0, 0, 0]);
}

#[test]
fn empty_input_encodes_to_nothing() {
    let data: [u8; 0] = [];
    assert!(huffman_encode(&data).is_empty());
}

#[test]
fn unknown_symbol_is_reported() {
    let table = huffman_code_table(b"abab");
    assert_eq!(
        table.encode(b"abc"),
        Err(HuffmanError::UnknownSymbol { index: 2 })
    );
    assert_eq!(table.code(b'c'), None);
}

#[test]
fn invalid_code_is_reported() {
    let table = huffman_code_table(b"aaaabbc");
    assert_eq!(table.decode(&[2]), Err(HuffmanError::InvalidCode { position: 0 }));
    let mut bits = table.encode(b"ab").unwrap();
    let code_c = table.code(b'c').unwrap().clone();
    let start = bits.len();
    bits.extend_from_slice(&code_c[..code_c.len() - 1]);
    assert_eq!(
        table.decode(&bits),
        Err(HuffmanError::InvalidCode { position: start })
    );
}

#[test]
fn leaf_tree_code_table() {
    let tree = HuffmanNode::Leaf { value: 5u8, frequency: 3 };
    let table = CodeTable::from_tree(&tree);
    assert_eq!(table.entries(), &vec![(5u8, vec![0u8])]);
}

#[test]
fn small_table_merges_lowest_weights_first() {
    let tree = build_huffman_tree(&[(b'a', 1u32), (b'b', 1), (b'c', 2)]);
    let table = CodeTable::from_tree(&tree);
    assert_eq!(
        table.entries(),
        &vec![(b'c', vec![0u8]), (b'a', vec![1u8, 0]), (b'b', vec![1u8, 1])]
    );
}

#[test]
fn leaf_outranks_internal_node_of_equal_weight() {
    // after merging 'a' and 'b' (weight 2), the leaf 'c' of weight 2 comes out first
    let tree = build_huffman_tree(&[(b'a', 1u32), (b'b', 1), (b'c', 2), (b'd', 5)]);
    let table = CodeTable::from_tree(&tree);
    assert_eq!(table.code(b'd').unwrap().len(), 1);
    assert_eq!(table.code(b'c').unwrap().len(), 2);
    assert_eq!(table.code(b'a').unwrap().len(), 3);
}

#[test]
fn tree_codes_meet_kraft_equality() {
    let table = huffman_code_table(TEXT.as_bytes());
    let sum: f64 = table
        .entries()
        .iter()
        .map(|(_, code)| 0.5f64.powi(code.len() as i32))
        .sum();
    assert_eq!(sum, 1.0);
}
