//! The capability that histogram and Huffman symbols need: equality and a
//! total order, both read off an integer key, and stepping to the next key.

use vstd::prelude::*;

verus! {

/// A discrete symbol. Each symbol has an integer key; distinct symbols
/// have distinct keys, and keys order the symbols.
pub trait Symbol: Copy + Sized {
    spec fn key(self) -> int;

    proof fn lemma_key_injective(a: Self, b: Self)
        ensures
            a.key() == b.key() ==> a == b,
    ;

    fn same(&self, other: &Self) -> (r: bool)
        ensures
            r == (self.key() == other.key()),
    ;

    fn precedes(&self, other: &Self) -> (r: bool)
        ensures
            r == (self.key() < other.key()),
    ;

    /// The symbol whose key is one more, if there is one.
    fn successor(&self) -> (r: Option<Self>)
        ensures
            match r {
                Some(n) => n.key() == self.key() + 1,
                None => forall|x: Self| #[trigger] x.key() <= self.key(),
            },
    ;
}

impl Symbol for u8 {
    open spec fn key(self) -> int {
        self as int
    }

    proof fn lemma_key_injective(a: Self, b: Self) {
    }

    fn same(&self, other: &Self) -> (r: bool) {
        *self == *other
    }

    fn precedes(&self, other: &Self) -> (r: bool) {
        *self < *other
    }

    fn successor(&self) -> (r: Option<Self>) {
        if *self < 255 {
            Some(*self + 1)
        } else {
            None
        }
    }
}

impl Symbol for i32 {
    open spec fn key(self) -> int {
        self as int
    }

    proof fn lemma_key_injective(a: Self, b: Self) {
    }

    fn same(&self, other: &Self) -> (r: bool) {
        *self == *other
    }

    fn precedes(&self, other: &Self) -> (r: bool) {
        *self < *other
    }

    fn successor(&self) -> (r: Option<Self>) {
        if *self < i32::MAX {
            Some(*self + 1)
        } else {
            None
        }
    }
}

impl Symbol for bool {
    open spec fn key(self) -> int {
        if self {
            1
        } else {
            0
        }
    }

    proof fn lemma_key_injective(a: Self, b: Self) {
    }

    fn same(&self, other: &Self) -> (r: bool) {
        *self == *other
    }

    fn precedes(&self, other: &Self) -> (r: bool) {
        !*self && *other
    }

    fn successor(&self) -> (r: Option<Self>) {
        if *self {
            None
        } else {
            Some(true)
        }
    }
}

/// Number of elements of `s` with the key of `x`.
pub open spec fn occurrences<T: Symbol>(s: Seq<T>, x: T) -> nat
    decreases s.len(),
{
    if s.len() == 0 {
        0
    } else {
        occurrences(s.drop_last(), x) + if s.last().key() == x.key() {
            1nat
        } else {
            0nat
        }
    }
}

} // verus!
