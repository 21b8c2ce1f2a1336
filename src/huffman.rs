//! Huffman coding: tree building by repeated merging of the two lowest
//! weighted nodes, and code generation by tree walk.
//!
//! A tree that is a single leaf gives its one symbol the one-bit code `0`,
//! so that every code is non-empty and a stream decodes without knowing
//! its symbol count.

use vstd::prelude::*;
use vstd::multiset::Multiset;
use crate::bits::is_bit_seq;
use crate::histogram::{counts_positive, keys_increasing, lemma_entry_le_total, nat_counts, tally,
    tally_total, Histogram};
use crate::code_table::{covers, encode_from, decode_from, find_from, lookup, codes_view,
    lemma_huffman_round_trip, CodeTable, HuffmanError};
use crate::merge_queue::{heap_ordered, pop, push, HeapEntry};
use crate::symbol::{occurrences, Symbol};

verus! {

/// A Huffman tree: internal nodes own their two children; leaves hold a
/// symbol and its frequency.
#[derive(Debug, PartialEq, Eq)]
pub enum HuffmanNode<T: Symbol> {
    Internal { left: Box<HuffmanNode<T>>, right: Box<HuffmanNode<T>> },
    Leaf { value: T, frequency: u32 },
}

/// The (symbol, frequency) pairs of the leaves, left to right.
pub open spec fn leaves<T: Symbol>(node: HuffmanNode<T>) -> Seq<(T, nat)>
    decreases node,
{
    match node {
        HuffmanNode::Internal { left, right } => leaves(*left) + leaves(*right),
        HuffmanNode::Leaf { value, frequency } => seq![(value, frequency as nat)],
    }
}

/// The (symbol, code) pairs of the leaves, left to right, for a walk that
/// starts with `prefix` and appends 0 going left and 1 going right.
pub open spec fn tree_codes<T: Symbol>(node: HuffmanNode<T>, prefix: Seq<u8>) -> Seq<(T, Seq<u8>)>
    decreases node,
{
    match node {
        HuffmanNode::Internal { left, right } => tree_codes(*left, prefix.push(0u8)) + tree_codes(
            *right,
            prefix.push(1u8),
        ),
        HuffmanNode::Leaf { value, frequency: _ } => seq![(value, prefix)],
    }
}

/// The code table of a tree: the codes of its leaves, or the code `0` when
/// the tree is a single leaf.
pub open spec fn code_table_of<T: Symbol>(node: HuffmanNode<T>) -> Seq<(T, Seq<u8>)> {
    match node {
        HuffmanNode::Leaf { value, frequency: _ } => seq![(value, seq![0u8])],
        HuffmanNode::Internal { .. } => tree_codes(node, seq![]),
    }
}

/// `a` is a prefix of `b`.
pub open spec fn is_prefix(a: Seq<u8>, b: Seq<u8>) -> bool {
    a.len() <= b.len() && b.subrange(0, a.len() as int) == a
}

/// No code of `t` is a prefix of another entry's code.
pub open spec fn prefix_free<T>(t: Seq<(T, Seq<u8>)>) -> bool {
    forall|i: int, j: int|
        0 <= i < t.len() && 0 <= j < t.len() && i != j ==> !is_prefix(
            #[trigger] t[i].1,
            #[trigger] t[j].1,
        )
}

/// A usable code table: non-empty codes made of bits, none a prefix of another.
pub open spec fn table_wf<T>(t: Seq<(T, Seq<u8>)>) -> bool {
    &&& prefix_free(t)
    &&& forall|i: int| 0 <= i < t.len() ==> (#[trigger] t[i]).1.len() > 0 && is_bit_seq(t[i].1)
}

/// The symbols of a table of pairs, in order.
pub open spec fn symbols_of<T, U>(t: Seq<(T, U)>) -> Seq<T> {
    t.map_values(|e: (T, U)| e.0)
}

proof fn lemma_tree_codes<T: Symbol>(node: HuffmanNode<T>, prefix: Seq<u8>)
    requires
        is_bit_seq(prefix),
    ensures
        prefix_free(tree_codes(node, prefix)),
        symbols_of(tree_codes(node, prefix)) == symbols_of(leaves(node)),
        forall|i: int|
            0 <= i < tree_codes(node, prefix).len() ==> {
                let c = (#[trigger] tree_codes(node, prefix)[i]).1;
                &&& is_prefix(prefix, c)
                &&& is_bit_seq(c)
                &&& (node is Internal ==> c.len() > prefix.len())
            },
    decreases node,
{
    match node {
        HuffmanNode::Internal { left, right } => {
            let left_prefix = prefix.push(0u8);
            let right_prefix = prefix.push(1u8);
            assert(is_bit_seq(left_prefix));
            assert(is_bit_seq(right_prefix));
            lemma_tree_codes(*left, left_prefix);
            lemma_tree_codes(*right, right_prefix);
            let a = tree_codes(*left, left_prefix);
            let b = tree_codes(*right, right_prefix);
            let t = a + b;
            assert(t == tree_codes(node, prefix));
            assert(symbols_of(t) =~= symbols_of(a) + symbols_of(b));
            assert(symbols_of(leaves(node)) =~= symbols_of(leaves(*left)) + symbols_of(
                leaves(*right),
            ));
            let n = prefix.len() as int;
            assert forall|i: int|
                0 <= i < t.len() implies {
                let c = (#[trigger] t[i]).1;
                &&& is_prefix(prefix, c)
                &&& is_bit_seq(c)
                &&& c.len() > prefix.len()
            } by {
                if i < a.len() {
                    let c = a[i].1;
                    assert(c.subrange(0, n) =~= c.subrange(0, n + 1).subrange(0, n));
                    assert(left_prefix.subrange(0, n) =~= prefix);
                } else {
                    let c = b[i - a.len()].1;
                    assert(c.subrange(0, n) =~= c.subrange(0, n + 1).subrange(0, n));
                    assert(right_prefix.subrange(0, n) =~= prefix);
                }
            }
            assert forall|i: int, j: int|
                0 <= i < t.len() && 0 <= j < t.len() && i != j implies !is_prefix(
                #[trigger] t[i].1,
                #[trigger] t[j].1,
            ) by {
                if i < a.len() && j < a.len() {
                    assert(t[i] == a[i] && t[j] == a[j]);
                } else if i >= a.len() && j >= a.len() {
                    assert(t[i] == b[i - a.len()] && t[j] == b[j - a.len()]);
                } else {
                    let ci = t[i].1;
                    let cj = t[j].1;
                    if is_prefix(ci, cj) {
                        assert(ci.subrange(0, n + 1)[n] == ci[n]);
                        assert(cj.subrange(0, n + 1)[n] == cj[n]);
                        assert(cj.subrange(0, ci.len() as int)[n] == cj[n]);
                        if i < a.len() {
                            assert(ci.subrange(0, n + 1) == left_prefix);
                            assert(cj.subrange(0, n + 1) == right_prefix);
                        } else {
                            assert(ci.subrange(0, n + 1) == right_prefix);
                            assert(cj.subrange(0, n + 1) == left_prefix);
                        }
                        assert(false);
                    }
                }
            }
        },
        HuffmanNode::Leaf { value, frequency } => {
            let t = tree_codes(node, prefix);
            assert(prefix.subrange(0, prefix.len() as int) =~= prefix);
            assert(symbols_of(t) =~= symbols_of(leaves(node)));
        },
    }
}

/// The code table of any tree is usable: its codes are non-empty, made of
/// bits, and none is a prefix of another. It lists the tree's leaf
/// symbols, in order.
pub proof fn lemma_code_table_prefix_free<T: Symbol>(node: HuffmanNode<T>)
    ensures
        table_wf(code_table_of(node)),
        symbols_of(code_table_of(node)) == symbols_of(leaves(node)),
{
    match node {
        HuffmanNode::Leaf { value, frequency } => {
            let t = code_table_of(node);
            assert(is_bit_seq(t[0].1));
            assert(symbols_of(t) =~= symbols_of(leaves(node)));
        },
        HuffmanNode::Internal { .. } => {
            assert(is_bit_seq(Seq::<u8>::empty()));
            lemma_tree_codes(node, seq![]);
        },
    }
}

/// Depth of the deepest leaf.
pub open spec fn height<T: Symbol>(node: HuffmanNode<T>) -> nat
    decreases node,
{
    match node {
        HuffmanNode::Internal { left, right } => {
            let l = height(*left);
            let r = height(*right);
            1 + if l >= r {
                l
            } else {
                r
            }
        },
        HuffmanNode::Leaf { .. } => 0,
    }
}

/// The sum over the codes of `t` of `2^(d - code length)`: Kraft's sum
/// scaled by `2^d`.
pub open spec fn kraft_sum<T>(t: Seq<(T, Seq<u8>)>, d: nat) -> nat
    decreases t.len(),
{
    if t.len() == 0 {
        0
    } else {
        kraft_sum(t.drop_last(), d) + vstd::arithmetic::power2::pow2(
            (d - t.last().1.len()) as nat,
        )
    }
}

proof fn lemma_kraft_concat<T>(a: Seq<(T, Seq<u8>)>, b: Seq<(T, Seq<u8>)>, d: nat)
    ensures
        kraft_sum(a + b, d) == kraft_sum(a, d) + kraft_sum(b, d),
    decreases b.len(),
{
    if b.len() == 0 {
        assert(a + b =~= a);
    } else {
        lemma_kraft_concat(a, b.drop_last(), d);
        assert((a + b).drop_last() =~= a + b.drop_last());
    }
}

proof fn lemma_kraft_subtree<T: Symbol>(node: HuffmanNode<T>, prefix: Seq<u8>, d: nat)
    requires
        d >= prefix.len() + height(node),
    ensures
        kraft_sum(tree_codes(node, prefix), d) == vstd::arithmetic::power2::pow2(
            (d - prefix.len()) as nat,
        ),
    decreases node,
{
    match node {
        HuffmanNode::Internal { left, right } => {
            let a = tree_codes(*left, prefix.push(0u8));
            let b = tree_codes(*right, prefix.push(1u8));
            lemma_kraft_subtree(*left, prefix.push(0u8), d);
            lemma_kraft_subtree(*right, prefix.push(1u8), d);
            lemma_kraft_concat(a, b, d);
            let e = (d - prefix.len()) as nat;
            assert(e >= 1);
            vstd::arithmetic::power2::lemma_pow2_unfold(e);
            assert(prefix.push(0u8).len() == prefix.len() + 1);
            assert((d - prefix.push(0u8).len()) as nat == (e - 1) as nat);
            assert(tree_codes(node, prefix) == a + b);
        },
        HuffmanNode::Leaf { .. } => {
            let t = tree_codes(node, prefix);
            assert(t.drop_last() =~= Seq::<(T, Seq<u8>)>::empty());
            assert(t.last().1 == prefix);
            assert(kraft_sum(t.drop_last(), d) == 0);
        },
    }
}

/// Kraft's equality: the leaf codes of any tree, of lengths `l`, satisfy
/// `sum of 2^(-l) == 1`, here scaled by `2^height`.
pub proof fn lemma_kraft_equality<T: Symbol>(node: HuffmanNode<T>)
    ensures
        kraft_sum(tree_codes(node, seq![]), height(node)) == vstd::arithmetic::power2::pow2(
            height(node),
        ),
{
    lemma_kraft_subtree(node, seq![], height(node));
}

/// A frequency table with its counts read as natural numbers.
pub open spec fn freq_view<T>(s: Seq<(T, u32)>) -> Seq<(T, nat)> {
    s.map_values(|e: (T, u32)| (e.0, e.1 as nat))
}

/// All leaves of the nodes of a heap, as a multiset.
pub open spec fn forest<T: Symbol>(s: Seq<HeapEntry<T>>) -> Multiset<(T, nat)>
    decreases s.len(),
{
    if s.len() == 0 {
        Multiset::empty()
    } else {
        forest(s.drop_last()).add(leaves(s.last().node).to_multiset())
    }
}

proof fn lemma_forest_remove<T: Symbol>(s: Seq<HeapEntry<T>>, k: int)
    requires
        0 <= k < s.len(),
    ensures
        forest(s) == forest(s.remove(k)).add(leaves(s[k].node).to_multiset()),
    decreases s.len(),
{
    if k == s.len() - 1 {
        assert(s.remove(k) =~= s.drop_last());
    } else {
        lemma_forest_remove(s.drop_last(), k);
        assert(s.remove(k).drop_last() =~= s.drop_last().remove(k));
        assert(s.remove(k).last() == s.last());
        let a = forest(s.drop_last().remove(k));
        let x = leaves(s[k].node).to_multiset();
        let y = leaves(s.last().node).to_multiset();
        assert(a.add(x).add(y) =~= a.add(y).add(x));
    }
}

proof fn lemma_forest_perm<T: Symbol>(s1: Seq<HeapEntry<T>>, s2: Seq<HeapEntry<T>>)
    requires
        s1.to_multiset() == s2.to_multiset(),
    ensures
        forest(s1) == forest(s2),
    decreases s1.len(),
{
    broadcast use {
        vstd::seq_lib::group_to_multiset_ensures,
        vstd::multiset::group_multiset_axioms,
    };

    if s1.len() == 0 {
        assert(s2.to_multiset().len() == 0);
        assert(s2.len() == 0);
        assert(s2 =~= s1);
    } else {
        let x = s1.last();
        let d = s1.drop_last();
        assert(s1 =~= d.push(x));
        assert(s2.to_multiset().count(x) > 0);
        assert(s2.contains(x));
        let k = choose|k: int| 0 <= k < s2.len() && s2[k] == x;
        vstd::seq_lib::to_multiset_remove(s2, k);
        assert(d.to_multiset() =~= s2.remove(k).to_multiset());
        lemma_forest_perm(d, s2.remove(k));
        lemma_forest_remove(s2, k);
    }
}

/// The frequency table of `data`: each distinct symbol with its number of
/// occurrences, in ascending key order.
pub fn build_histogram<T: Symbol>(data: &[T]) -> (freqs: Vec<(T, u32)>)
    requires
        data.len() <= u32::MAX,
    ensures
        keys_increasing(freq_view(freqs@)),
        counts_positive(freq_view(freqs@)),
        tally_total(freq_view(freqs@)) == data.len(),
        forall|x: T| #[trigger] tally(freq_view(freqs@), x) == occurrences(data@, x),
{
    let h = Histogram::from_symbols(data);
    let counts = h.counts();
    let ghost s = h.entries();
    let mut freqs: Vec<(T, u32)> = Vec::new();
    let mut i: usize = 0;
    while i < counts.len()
        invariant
            s == nat_counts(counts@),
            i <= counts.len(),
            tally_total(s) == data.len(),
            data.len() <= u32::MAX,
            freq_view(freqs@) == s.subrange(0, i as int),
        decreases counts.len() - i,
    {
        proof {
            lemma_entry_le_total(s, i as int);
        }
        let (sym, c) = counts[i];
        assert(s[i as int] == (sym, c as nat));
        assert(c <= u32::MAX);
        let ghost old_freqs = freqs@;
        freqs.push((sym, c as u32));
        assert(freq_view(freqs@) =~= freq_view(old_freqs).push((sym, c as nat)));
        assert(s.subrange(0, i + 1) =~= s.subrange(0, i as int).push(s[i as int]));
        i += 1;
        assert(freq_view(freqs@) =~= s.subrange(0, i as int));
    }
    assert(s.subrange(0, i as int) =~= s);
    assert(s == h.entries());
    assert forall|x: T| #[trigger] tally(freq_view(freqs@), x) == occurrences(data@, x) by {
        assert(h.count(x) == occurrences(data@, x));
    }
    freqs
}

/// Builds a Huffman tree over a non-empty frequency table: repeatedly
/// merges the two lowest ranked nodes until one is left. The merged weight
/// saturates at `u32::MAX`.
pub fn build_huffman_tree<T: Symbol>(data: &[(T, u32)]) -> (root: HuffmanNode<T>)
    requires
        data.len() > 0,
    ensures
        leaves(root).to_multiset() == freq_view(data@).to_multiset(),
{
    broadcast use {
        vstd::seq_lib::group_to_multiset_ensures,
        vstd::multiset::group_multiset_axioms,
        vstd::seq_lib::lemma_multiset_commutative,
    };

    let ghost target = freq_view(data@).to_multiset();
    let mut heap: Vec<HeapEntry<T>> = Vec::new();
    let mut i: usize = 0;
    while i < data.len()
        invariant
            i <= data.len(),
            heap_ordered(heap@),
            heap.len() == i,
            forest(heap@) == freq_view(data@.subrange(0, i as int)).to_multiset(),
        decreases data.len() - i,
    {
        let (value, frequency) = data[i];
        let e = HeapEntry { weight: frequency, node: HuffmanNode::Leaf { value, frequency } };
        let ghost before = heap@;
        push(&mut heap, e);
        proof {
            vstd::seq_lib::to_multiset_build(before, e);
            lemma_forest_perm(heap@, before.push(e));
            assert(before.push(e).drop_last() =~= before);
            let f = freq_view(data@.subrange(0, i + 1));
            assert(f =~= freq_view(data@.subrange(0, i as int)).push((value, frequency as nat)));
            assert(leaves(e.node) == seq![(value, frequency as nat)]);
            let x = (value, frequency as nat);
            let prev = freq_view(data@.subrange(0, i as int));
            vstd::seq_lib::to_multiset_build(prev, x);
            vstd::seq_lib::to_multiset_build(Seq::<(T, nat)>::empty(), x);
            assert(Seq::<(T, nat)>::empty().push(x) =~= seq![x]);
            vstd::seq_lib::to_multiset_len(Seq::<(T, nat)>::empty());
            vstd::multiset::lemma_multiset_empty_len(Seq::<(T, nat)>::empty().to_multiset());
            assert(Seq::<(T, nat)>::empty().to_multiset() =~= Multiset::<(T, nat)>::empty());
            assert(forest(heap@) =~= f.to_multiset());
        }
        i += 1;
    }
    assert(data@.subrange(0, i as int) =~= data@);
    while heap.len() > 1
        invariant
            heap.len() >= 1,
            heap_ordered(heap@),
            forest(heap@) == target,
        decreases heap.len(),
    {
        let ghost h0 = heap@;
        let a = pop(&mut heap);
        let ghost h1 = heap@;
        let b = pop(&mut heap);
        let ghost h2 = heap@;
        let weight = if a.weight <= u32::MAX - b.weight {
            a.weight + b.weight
        } else {
            u32::MAX
        };
        let e = HeapEntry {
            weight,
            node: HuffmanNode::Internal { left: Box::new(a.node), right: Box::new(b.node) },
        };
        push(&mut heap, e);
        proof {
            vstd::seq_lib::to_multiset_build(h1, a);
            vstd::seq_lib::to_multiset_build(h2, b);
            vstd::seq_lib::to_multiset_build(h2, e);
            lemma_forest_perm(h0, h1.push(a));
            assert(h1.push(a).drop_last() =~= h1);
            lemma_forest_perm(h1, h2.push(b));
            assert(h2.push(b).drop_last() =~= h2);
            lemma_forest_perm(heap@, h2.push(e));
            assert(h2.push(e).drop_last() =~= h2);
            let la = leaves(a.node).to_multiset();
            let lb = leaves(b.node).to_multiset();
            assert(leaves(e.node) == leaves(a.node) + leaves(b.node));
            vstd::seq_lib::lemma_multiset_commutative(leaves(a.node), leaves(b.node));
            assert(leaves(e.node).to_multiset() =~= la.add(lb));
            assert(forest(heap@) =~= forest(h2).add(lb).add(la));
        }
    }
    let ghost h0 = heap@;
    let top = pop(&mut heap);
    proof {
        vstd::seq_lib::to_multiset_build(heap@, top);
        lemma_forest_perm(h0, heap@.push(top));
        assert(heap@.len() == 0);
        assert(heap@.push(top).drop_last() =~= heap@);
        assert(forest(heap@) == Multiset::<(T, nat)>::empty());
        assert(forest(h0) =~= leaves(top.node).to_multiset());
    }
    top.node
}

/// The code table of any tree over `data` encodes all of `data`, and
/// decoding the result against that table gives `data` back.
pub proof fn lemma_huffman_round_trip_own_table<T: Symbol>(data: Seq<T>, root: HuffmanNode<T>)
    requires
        is_tree_over(root, data),
    ensures
        encode_from(data, 0, code_table_of(root)) is Ok,
        decode_from(encode_from(data, 0, code_table_of(root))->Ok_0, 0, code_table_of(root))
            == Ok::<Seq<T>, HuffmanError>(data),
{
    let s = choose|s: Seq<(T, nat)>|
        is_frequency_table(s, data) && #[trigger] leaves(root).to_multiset() == s.to_multiset();
    lemma_table_covers(root, s, data);
    lemma_code_table_prefix_free(root);
    lemma_huffman_round_trip(data, code_table_of(root));
}

fn copy_bits(v: &Vec<u8>) -> (r: Vec<u8>)
    ensures
        r@ == v@,
{
    let mut r: Vec<u8> = Vec::new();
    let mut i: usize = 0;
    while i < v.len()
        invariant
            i <= v.len(),
            r@ == v@.subrange(0, i as int),
        decreases v.len() - i,
    {
        r.push(v[i]);
        i += 1;
        assert(r@ =~= v@.subrange(0, i as int));
    }
    assert(v@.subrange(0, i as int) =~= v@);
    r
}

/// Number of nodes of a tree.
pub open spec fn size<T: Symbol>(node: HuffmanNode<T>) -> nat
    decreases node,
{
    match node {
        HuffmanNode::Internal { left, right } => 1 + size(*left) + size(*right),
        HuffmanNode::Leaf { .. } => 1,
    }
}

/// The codes still to be produced from a work stack of (subtree, code so
/// far) pairs, whose last element is handled first.
pub open spec fn pending_codes<T: Symbol>(stack: Seq<(HuffmanNode<T>, Seq<u8>)>) -> Seq<
    (T, Seq<u8>),
>
    decreases stack.len(),
{
    if stack.len() == 0 {
        seq![]
    } else {
        tree_codes(stack.last().0, stack.last().1) + pending_codes(stack.drop_last())
    }
}

/// Total number of nodes on a work stack.
pub open spec fn pending_size<T: Symbol>(stack: Seq<(HuffmanNode<T>, Seq<u8>)>) -> nat
    decreases stack.len(),
{
    if stack.len() == 0 {
        0
    } else {
        size(stack.last().0) + pending_size(stack.drop_last())
    }
}

pub open spec fn stack_view<T: Symbol>(stack: Seq<(&HuffmanNode<T>, Vec<u8>)>) -> Seq<
    (HuffmanNode<T>, Seq<u8>),
> {
    stack.map_values(|e: (&HuffmanNode<T>, Vec<u8>)| (*e.0, e.1@))
}

/// Appends to `codes` the code of each leaf of `node`, left to right, for a
/// walk that starts with `current_code`. The walk keeps its own stack, so
/// deep trees need no deep call stack.
pub fn generate_codes<T: Symbol>(
    node: &HuffmanNode<T>,
    current_code: Vec<u8>,
    codes: &mut Vec<(T, Vec<u8>)>,
)
    ensures
        codes_view(final(codes)@) == codes_view(old(codes)@) + tree_codes(*node, current_code@),
{
    let ghost start = codes_view(codes@);
    let ghost cc = current_code@;
    let ghost whole = tree_codes(*node, cc);
    let mut stack: Vec<(&HuffmanNode<T>, Vec<u8>)> = Vec::new();
    stack.push((node, current_code));
    proof {
        let sv = stack_view(stack@);
        assert(sv.drop_last() =~= Seq::<(HuffmanNode<T>, Seq<u8>)>::empty());
        assert(sv.last() == (*node, cc));
        assert(pending_codes(sv.drop_last()) == Seq::<(T, Seq<u8>)>::empty());
        assert(pending_codes(sv) =~= whole);
    }
    while stack.len() > 0
        invariant
            start + whole == codes_view(codes@) + pending_codes(stack_view(stack@)),
        decreases pending_size(stack_view(stack@)),
    {
        let ghost before = stack_view(stack@);
        let ghost done = codes_view(codes@);
        let (n, code) = stack.pop().unwrap();
        let ghost c = code@;
        let ghost rest = before.drop_last();
        proof {
            assert(stack_view(stack@) =~= rest);
            assert(before.last() == (*n, c));
            assert(pending_codes(before) == tree_codes(*n, c) + pending_codes(rest));
            assert(pending_size(before) == size(*n) + pending_size(rest));
        }
        match n {
            HuffmanNode::Internal { left, right } => {
                let mut left_code = copy_bits(&code);
                left_code.push(0);
                let mut right_code = code;
                right_code.push(1);
                stack.push((right, right_code));
                stack.push((left, left_code));
                proof {
                    let sv = stack_view(stack@);
                    let mid = sv.drop_last();
                    assert(mid.drop_last() =~= rest);
                    assert(sv.last() == (**left, c.push(0u8)));
                    assert(mid.last() == (**right, c.push(1u8)));
                    assert(pending_codes(mid) == tree_codes(**right, c.push(1u8)) + pending_codes(
                        rest,
                    ));
                    assert(pending_codes(sv) == tree_codes(**left, c.push(0u8)) + pending_codes(
                        mid,
                    ));
                    assert(tree_codes(*n, c) == tree_codes(**left, c.push(0u8)) + tree_codes(
                        **right,
                        c.push(1u8),
                    ));
                    assert(pending_codes(sv) =~= tree_codes(*n, c) + pending_codes(rest));
                    assert(pending_size(mid) == size(**right) + pending_size(rest));
                    assert(pending_size(sv) == size(**left) + pending_size(mid));
                    assert(start + whole =~= codes_view(codes@) + pending_codes(sv));
                }
            },
            HuffmanNode::Leaf { value, frequency: _ } => {
                codes.push((*value, code));
                proof {
                    assert(codes_view(codes@) =~= done + tree_codes(*n, c));
                    assert(start + whole =~= codes_view(codes@) + pending_codes(
                        stack_view(stack@),
                    ));
                }
            },
        }
    }
    proof {
        assert(stack_view(stack@) =~= Seq::<(HuffmanNode<T>, Seq<u8>)>::empty());
        assert(pending_codes(stack_view(stack@)) == Seq::<(T, Seq<u8>)>::empty());
        assert(codes_view(codes@) + Seq::<(T, Seq<u8>)>::empty() =~= codes_view(codes@));
        assert(start + whole =~= codes_view(codes@));
    }
}

/// `s` is the frequency table of `data`: each distinct symbol once, in
/// ascending key order, with its number of occurrences.
pub open spec fn is_frequency_table<T: Symbol>(s: Seq<(T, nat)>, data: Seq<T>) -> bool {
    &&& keys_increasing(s)
    &&& counts_positive(s)
    &&& forall|x: T| #[trigger] tally(s, x) == occurrences(data, x)
}

/// The leaves of `root` are the frequency table of `data`, in some order.
pub open spec fn is_tree_over<T: Symbol>(root: HuffmanNode<T>, data: Seq<T>) -> bool {
    exists|s: Seq<(T, nat)>|
        is_frequency_table(s, data) && #[trigger] leaves(root).to_multiset() == s.to_multiset()
}

proof fn lemma_occurrences_pos<T: Symbol>(data: Seq<T>, k: int)
    requires
        0 <= k < data.len(),
    ensures
        occurrences(data, data[k]) > 0,
    decreases data.len(),
{
    if k < data.len() - 1 {
        lemma_occurrences_pos(data.drop_last(), k);
    }
}

proof fn lemma_tally_pos<T: Symbol>(s: Seq<(T, nat)>, x: T) -> (i: int)
    requires
        tally(s, x) > 0,
    ensures
        0 <= i < s.len(),
        s[i].0.key() == x.key(),
    decreases s.len(),
{
    if s.last().0.key() == x.key() {
        s.len() - 1
    } else {
        lemma_tally_pos(s.drop_last(), x)
    }
}

proof fn lemma_find_le<T: Symbol, U>(t: Seq<(T, U)>, x: T, j: int, l: int)
    requires
        0 <= j <= l < t.len(),
        t[l].0.key() == x.key(),
    ensures
        find_from(t, x, j) <= l,
    decreases l - j,
{
    if j < l && t[j].0.key() != x.key() {
        lemma_find_le(t, x, j + 1, l);
    }
}

/// The code table of a tree over `data` has a code for every symbol of `data`.
proof fn lemma_table_covers<T: Symbol>(root: HuffmanNode<T>, s: Seq<(T, nat)>, data: Seq<T>)
    requires
        is_frequency_table(s, data),
        leaves(root).to_multiset() == s.to_multiset(),
    ensures
        covers(code_table_of(root), data),
{
    broadcast use vstd::seq_lib::group_to_multiset_ensures;

    let t = code_table_of(root);
    lemma_code_table_prefix_free(root);
    assert forall|k: int| 0 <= k < data.len() implies #[trigger] lookup(t, data[k]) is Some by {
        let x = data[k];
        lemma_occurrences_pos(data, k);
        let i = lemma_tally_pos(s, x);
        assert(s.to_multiset().count(s[i]) > 0);
        assert(leaves(root).contains(s[i]));
        let l = choose|l: int| 0 <= l < leaves(root).len() && leaves(root)[l] == s[i];
        assert(symbols_of(leaves(root)).len() == leaves(root).len());
        assert(symbols_of(t).len() == t.len());
        assert(symbols_of(leaves(root))[l] == s[i].0);
        assert(symbols_of(t)[l] == t[l].0);
        lemma_find_le(t, x, 0, l);
    }
}

/// The Huffman tree of a non-empty `data`.
pub fn huffman_tree<T: Symbol>(data: &[T]) -> (root: HuffmanNode<T>)
    requires
        0 < data.len() <= u32::MAX,
    ensures
        is_tree_over(root, data@),
{
    let frequencies = build_histogram(data);
    proof {
        if frequencies.len() == 0 {
            lemma_occurrences_pos(data@, 0);
            assert(tally(freq_view(frequencies@), data@[0]) == 0);
        }
    }
    let root = build_huffman_tree(frequencies.as_slice());
    assert(is_frequency_table(freq_view(frequencies@), data@));
    root
}

/// The code table of the Huffman tree of a non-empty `data`.
pub fn huffman_code_table<T: Symbol>(data: &[T]) -> (table: CodeTable<T>)
    requires
        0 < data.len() <= u32::MAX,
    ensures
        table_wf(table@),
        covers(table@, data@),
        exists|root: HuffmanNode<T>| is_tree_over(root, data@) && table@ == code_table_of(root),
{
    let tree = huffman_tree(data);
    let table = CodeTable::from_tree(&tree);
    proof {
        let s = choose|s: Seq<(T, nat)>|
            is_frequency_table(s, data@) && #[trigger] leaves(tree).to_multiset()
                == s.to_multiset();
        lemma_table_covers(tree, s, data@);
    }
    table
}

/// Huffman-encodes `data` with the code table of its own Huffman tree.
/// Empty input gives no bits.
pub fn huffman_encode<T: Symbol>(data: &[T]) -> (encoded: Vec<u8>)
    requires
        data.len() <= u32::MAX,
    ensures
        data.len() == 0 ==> encoded@ == Seq::<u8>::empty(),
        data.len() > 0 ==> exists|root: HuffmanNode<T>|
            is_tree_over(root, data@) && #[trigger] encode_from(data@, 0, code_table_of(root))
                == Ok::<Seq<u8>, HuffmanError>(encoded@),
{
    if data.len() == 0 {
        return Vec::new();
    }
    let table = huffman_code_table(data);
    proof {
        lemma_huffman_round_trip(data@, table@);
    }
    match table.encode(data) {
        Ok(encoded) => {
            proof {
                let root = choose|root: HuffmanNode<T>|
                    is_tree_over(root, data@) && table@ == code_table_of(root);
                assert(encode_from(data@, 0, code_table_of(root)) == Ok::<
                    Seq<u8>,
                    HuffmanError,
                >(encoded@));
            }
            encoded
        },
        Err(_) => Vec::new(),
    }
}

} // verus!
