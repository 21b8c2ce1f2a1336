use eet51_lab3::huffman::HuffmanNode;
use eet51_lab3::merge_queue::{pop, push, HeapEntry};

fn leaf(value: u8, weight: u32) -> HeapEntry<u8> {
    HeapEntry { weight, node: HuffmanNode::Leaf { value, frequency: weight } }
}

fn internal(weight: u32) -> HeapEntry<u8> {
    HeapEntry {
        weight,
        node: HuffmanNode::Internal {
            left: Box::new(HuffmanNode::Leaf { value: 0, frequency: 0 }),
            right: Box::new(HuffmanNode::Leaf { value: 1, frequency: 0 }),
        },
    }
}

#[test]
fn pops_in_rank_order() {
    let mut heap = Vec::new();
    push(&mut heap, leaf(1, 9));
    push(&mut heap, internal(3));
    push(&mut heap, leaf(2, 4));
    push(&mut heap, leaf(3, 3));
    push(&mut heap, leaf(4, 1));
    push(&mut heap, internal(7));
    let mut order = Vec::new();
    while !heap.is_empty() {
        let e = pop(&mut heap);
        let is_leaf = matches!(e.node, HuffmanNode::Leaf { .. });
        order.push((e.weight, is_leaf));
    }
    assert_eq!(
        order,
        vec![(1, true), (3, true), (3, false), (4, true), (7, false), (9, true)]
    );
}
