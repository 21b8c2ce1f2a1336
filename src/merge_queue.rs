//! A binary min-heap of weighted Huffman nodes, kept in a `Vec`.
//!
//! Nodes are ranked by weight; at equal weight a leaf comes out before an
//! internal node, and two internal nodes rank equal.

use vstd::prelude::*;
use crate::huffman::HuffmanNode;
use crate::symbol::Symbol;

verus! {

broadcast use {
    vstd::seq_lib::group_to_multiset_ensures,
    vstd::multiset::group_multiset_axioms,
};

/// A node waiting to be merged, with its weight.
pub struct HeapEntry<T: Symbol> {
    pub weight: u32,
    pub node: HuffmanNode<T>,
}

/// Heap order of an entry: lower comes out first.
pub open spec fn rank<T: Symbol>(e: HeapEntry<T>) -> int {
    2 * e.weight + if e.node is Internal {
        1int
    } else {
        0int
    }
}

pub open spec fn parent(i: int) -> int {
    (i - 1) / 2
}

/// Every entry ranks no lower than its parent.
pub open spec fn heap_ordered<T: Symbol>(s: Seq<HeapEntry<T>>) -> bool {
    forall|i: int| 0 < i < s.len() ==> rank(s[parent(i)]) <= rank(#[trigger] s[i])
}

/// Relies on `<[T]>::swap`: the elements at `i` and `j` trade places.
#[verifier::external_body]
fn swap_items<E>(v: &mut Vec<E>, i: usize, j: usize)
    requires
        i < old(v).len(),
        j < old(v).len(),
    ensures
        final(v)@ == old(v)@.update(i as int, old(v)@[j as int]).update(j as int, old(v)@[i as int]),
{
    v.swap(i, j)
}

fn rank_of<T: Symbol>(e: &HeapEntry<T>) -> (r: u64)
    ensures
        r == rank(*e),
{
    let flag: u64 = match &e.node {
        HuffmanNode::Internal { .. } => 1,
        HuffmanNode::Leaf { .. } => 0,
    };
    2 * (e.weight as u64) + flag
}

proof fn lemma_swap_multiset<E>(s: Seq<E>, i: int, j: int)
    requires
        0 <= i < s.len(),
        0 <= j < s.len(),
    ensures
        s.update(i, s[j]).update(j, s[i]).to_multiset() == s.to_multiset(),
{
    let s1 = s.update(i, s[j]);
    vstd::seq_lib::to_multiset_update(s, i, s[j]);
    vstd::seq_lib::to_multiset_update(s1, j, s[i]);
    assert(s.to_multiset().contains(s[i]));
    assert(s1[j] == s[j] || i == j);
    assert(s1.update(j, s[i]).to_multiset() =~= s.to_multiset());
}

proof fn lemma_root_lowest<T: Symbol>(s: Seq<HeapEntry<T>>, i: int)
    requires
        heap_ordered(s),
        0 <= i < s.len(),
    ensures
        rank(s[0]) <= rank(s[i]),
    decreases i,
{
    if i > 0 {
        lemma_root_lowest(s, parent(i));
    }
}

/// Moves the entry at `pos` up until its parent ranks no higher.
fn sift_up<T: Symbol>(v: &mut Vec<HeapEntry<T>>, pos: usize)
    requires
        pos < old(v).len(),
        forall|i: int|
            0 < i < old(v).len() && i != pos ==> rank(old(v)@[parent(i)]) <= rank(
                #[trigger] old(v)@[i],
            ),
        forall|c: int|
            0 < pos && 0 < c < old(v).len() && parent(c) == pos ==> rank(
                old(v)@[parent(pos as int)],
            ) <= rank(#[trigger] old(v)@[c]),
    ensures
        heap_ordered(final(v)@),
        final(v)@.to_multiset() == old(v)@.to_multiset(),
        final(v)@.len() == old(v)@.len(),
{
    let ghost m = v@.to_multiset();
    let mut pos = pos;
    while pos > 0
        invariant
            pos < v.len(),
            v.len() == old(v).len(),
            m == old(v)@.to_multiset(),
            v@.to_multiset() == m,
            forall|i: int|
                0 < i < v.len() && i != pos ==> rank(v@[parent(i)]) <= rank(#[trigger] v@[i]),
            forall|c: int|
                0 < pos && 0 < c < v.len() && parent(c) == pos ==> rank(v@[parent(pos as int)])
                    <= rank(#[trigger] v@[c]),
        decreases pos,
    {
        let p = (pos - 1) / 2;
        if rank_of(&v[p]) <= rank_of(&v[pos]) {
            return;
        }
        let ghost s = v@;
        swap_items(v, pos, p);
        proof {
            lemma_swap_multiset(s, pos as int, p as int);
            let n = v@;
            assert forall|i: int| 0 < i < n.len() && i != p implies rank(n[parent(i)]) <= rank(
                #[trigger] n[i],
            ) by {
                if i == pos {
                } else if parent(i) == pos {
                    assert(n[parent(i)] == s[p as int]);
                } else if parent(i) == p {
                    assert(rank(s[p as int]) <= rank(s[i]));
                } else {
                }
            }
            assert forall|c: int| 0 < p && 0 < c < n.len() && parent(c) == p implies rank(
                n[parent(p as int)],
            ) <= rank(#[trigger] n[c]) by {
                assert(rank(s[parent(p as int)]) <= rank(s[p as int]));
                if c != pos {
                    assert(rank(s[p as int]) <= rank(s[c]));
                }
            }
        }
        pos = p;
    }
}

/// Moves the entry at `pos` down until its children rank no lower.
fn sift_down<T: Symbol>(v: &mut Vec<HeapEntry<T>>, pos: usize)
    requires
        pos < old(v).len(),
        forall|i: int|
            0 < i < old(v).len() && parent(i) != pos ==> rank(old(v)@[parent(i)]) <= rank(
                #[trigger] old(v)@[i],
            ),
        forall|c: int|
            0 < pos && 0 < c < old(v).len() && parent(c) == pos ==> rank(
                old(v)@[parent(pos as int)],
            ) <= rank(#[trigger] old(v)@[c]),
    ensures
        heap_ordered(final(v)@),
        final(v)@.to_multiset() == old(v)@.to_multiset(),
        final(v)@.len() == old(v)@.len(),
{
    let ghost m = v@.to_multiset();
    let n = v.len();
    let mut pos = pos;
    loop
        invariant
            n == v.len(),
            n == old(v).len(),
            pos < n,
            m == old(v)@.to_multiset(),
            v@.to_multiset() == m,
            forall|i: int|
                0 < i < n && parent(i) != pos ==> rank(v@[parent(i)]) <= rank(#[trigger] v@[i]),
            forall|c: int|
                0 < pos && 0 < c < n && parent(c) == pos ==> rank(v@[parent(pos as int)]) <= rank(
                    #[trigger] v@[c],
                ),
        decreases n - pos,
    {
        if pos >= n / 2 {
            assert forall|i: int| 0 < i < n implies rank(v@[parent(i)]) <= rank(
                #[trigger] v@[i],
            ) by {
                assert(parent(i) != pos);
            }
            return;
        }
        let l = 2 * pos + 1;
        let mut c = l;
        if l + 1 < n && rank_of(&v[l + 1]) <= rank_of(&v[l]) {
            c = l + 1;
        }
        if rank_of(&v[pos]) <= rank_of(&v[c]) {
            assert forall|i: int| 0 < i < n implies rank(v@[parent(i)]) <= rank(
                #[trigger] v@[i],
            ) by {
                if parent(i) == pos {
                    assert(i == l || i == l + 1);
                }
            }
            return;
        }
        let ghost s = v@;
        swap_items(v, pos, c);
        proof {
            lemma_swap_multiset(s, pos as int, c as int);
            let t = v@;
            assert forall|i: int| 0 < i < n && parent(i) != c implies rank(t[parent(i)]) <= rank(
                #[trigger] t[i],
            ) by {
                if i == c {
                } else if parent(i) == pos {
                    assert(i == l || i == l + 1);
                } else if i == pos {
                    assert(rank(s[parent(pos as int)]) <= rank(s[c as int]));
                } else {
                }
            }
        }
        pos = c;
    }
}

/// Adds `e` to the heap.
pub fn push<T: Symbol>(v: &mut Vec<HeapEntry<T>>, e: HeapEntry<T>)
    requires
        heap_ordered(old(v)@),
    ensures
        heap_ordered(final(v)@),
        final(v)@.to_multiset() == old(v)@.to_multiset().insert(e),
        final(v)@.len() == old(v)@.len() + 1,
{
    let ghost s = v@;
    v.push(e);
    proof {
        assert(v@ == s.push(e));
    }
    let pos = v.len() - 1;
    sift_up(v, pos);
}

/// Takes out an entry of lowest rank.
pub fn pop<T: Symbol>(v: &mut Vec<HeapEntry<T>>) -> (top: HeapEntry<T>)
    requires
        old(v)@.len() > 0,
        heap_ordered(old(v)@),
    ensures
        heap_ordered(final(v)@),
        old(v)@.to_multiset() == final(v)@.to_multiset().insert(top),
        final(v)@.len() == old(v)@.len() - 1,
        forall|i: int| 0 <= i < old(v)@.len() ==> rank(top) <= rank(#[trigger] old(v)@[i]),
{
    let ghost s = v@;
    proof {
        assert forall|i: int| 0 <= i < s.len() implies rank(s[0]) <= rank(#[trigger] s[i]) by {
            lemma_root_lowest(s, i);
        }
    }
    let last = v.pop().unwrap();
    assert(s =~= v@.push(last));
    if v.len() == 0 {
        return last;
    }
    let ghost rest = v@;
    let mut top = last;
    std::mem::swap(&mut top, &mut v[0]);
    proof {
        assert(v@ == rest.update(0, last));
        vstd::seq_lib::to_multiset_update(rest, 0, last);
        assert(rest.to_multiset().insert(last).contains(s[0]));
        assert(s.to_multiset() =~= v@.to_multiset().insert(top));
        assert forall|i: int| 0 < i < v@.len() && parent(i) != 0 implies rank(v@[parent(i)])
            <= rank(#[trigger] v@[i]) by {
            assert(v@[i] == s[i]);
            assert(v@[parent(i)] == s[parent(i)]);
        }
    }
    sift_down(v, 0);
    top
}

} // verus!
