//! Code tables: (symbol, code) pairs, and the encoding and decoding of
//! symbol streams against them.

use vstd::prelude::*;
use crate::huffman::{
    code_table_of, generate_codes, is_prefix, lemma_code_table_prefix_free, prefix_free, table_wf,
    HuffmanNode,
};
use crate::symbol::Symbol;

verus! {

/// Why a Huffman encode or decode failed.
#[derive(Clone, Copy, Debug, PartialEq, Eq, Structural)]
pub enum HuffmanError {
    /// The symbol at `index` of the input has no code in the table.
    UnknownSymbol { index: usize },
    /// No code of the table starts at bit `position` of the stream.
    InvalidCode { position: usize },
}

/// A table of (symbol, code) pairs with its codes read as sequences.
pub open spec fn codes_view<T>(v: Seq<(T, Vec<u8>)>) -> Seq<(T, Seq<u8>)> {
    v.map_values(|e: (T, Vec<u8>)| (e.0, e.1@))
}

/// Index of the first entry from `j` on whose symbol has the key of `x`,
/// or the table length when there is none.
pub open spec fn find_from<T: Symbol, U>(t: Seq<(T, U)>, x: T, j: int) -> int
    decreases t.len() - j,
{
    if j < 0 || j >= t.len() {
        t.len() as int
    } else if t[j].0.key() == x.key() {
        j
    } else {
        find_from(t, x, j + 1)
    }
}

/// The code of `x` in `t`: that of its first entry.
pub open spec fn lookup<T: Symbol>(t: Seq<(T, Seq<u8>)>, x: T) -> Option<Seq<u8>> {
    let j = find_from(t, x, 0);
    if j < t.len() {
        Some(t[j].1)
    } else {
        None
    }
}

/// Every symbol of `data` has a code in `t`.
pub open spec fn covers<T: Symbol>(t: Seq<(T, Seq<u8>)>, data: Seq<T>) -> bool {
    forall|k: int| 0 <= k < data.len() ==> #[trigger] lookup(t, data[k]) is Some
}

/// The codes of `data[k..]` one after another, or the first unknown symbol.
pub open spec fn encode_from<T: Symbol>(data: Seq<T>, k: int, t: Seq<(T, Seq<u8>)>) -> Result<
    Seq<u8>,
    HuffmanError,
>
    decreases data.len() - k,
{
    if k < 0 || k >= data.len() {
        Ok(seq![])
    } else {
        match lookup(t, data[k]) {
            None => Err(HuffmanError::UnknownSymbol { index: k as usize }),
            Some(c) => match encode_from(data, k + 1, t) {
                Ok(rest) => Ok(c + rest),
                Err(e) => Err(e),
            },
        }
    }
}

/// `c` is non-empty and the bits of `bits` from `i` on start with it.
pub open spec fn code_matches(c: Seq<u8>, bits: Seq<u8>, i: int) -> bool {
    &&& c.len() > 0
    &&& 0 <= i
    &&& i + c.len() <= bits.len()
    &&& bits.subrange(i, i + c.len()) == c
}

/// Index of the first entry from `j` on whose code starts at bit `i`.
pub open spec fn match_from<T>(t: Seq<(T, Seq<u8>)>, bits: Seq<u8>, i: int, j: int) -> Option<int>
    decreases t.len() - j,
{
    if j < 0 || j >= t.len() {
        None
    } else if code_matches(t[j].1, bits, i) {
        Some(j)
    } else {
        match_from(t, bits, i, j + 1)
    }
}

/// Decoding of `bits` from position `i` to the end against table `t`.
pub open spec fn decode_from<T: Symbol>(bits: Seq<u8>, i: int, t: Seq<(T, Seq<u8>)>) -> Result<
    Seq<T>,
    HuffmanError,
>
    decreases bits.len() - i,
{
    if i < 0 || i >= bits.len() {
        Ok(seq![])
    } else {
        match match_from(t, bits, i, 0) {
            None => Err(HuffmanError::InvalidCode { position: i as usize }),
            Some(j) => {
                let n = if 0 <= j < t.len() {
                    t[j].1.len() as int
                } else {
                    0
                };
                if n > 0 && i + n <= bits.len() {
                    match decode_from(bits, i + n, t) {
                        Ok(rest) => Ok(seq![t[j].0] + rest),
                        Err(e) => Err(e),
                    }
                } else {
                    Err(HuffmanError::InvalidCode { position: i as usize })
                }
            },
        }
    }
}

proof fn lemma_match_from_ok<T>(t: Seq<(T, Seq<u8>)>, bits: Seq<u8>, i: int, j: int)
    requires
        0 <= j,
        match_from(t, bits, i, j) is Some,
    ensures
        j <= match_from(t, bits, i, j)->Some_0 < t.len(),
        code_matches(t[match_from(t, bits, i, j)->Some_0].1, bits, i),
    decreases t.len() - j,
{
    if j < t.len() && !code_matches(t[j].1, bits, i) {
        lemma_match_from_ok(t, bits, i, j + 1);
    }
}

/// In a prefix-free table, the entry whose code starts at `i` is the only one.
proof fn lemma_match_unique<T>(t: Seq<(T, Seq<u8>)>, bits: Seq<u8>, i: int, j0: int, j: int)
    requires
        prefix_free(t),
        0 <= j <= j0 < t.len(),
        code_matches(t[j0].1, bits, i),
    ensures
        match_from(t, bits, i, j) == Some(j0),
    decreases j0 - j,
{
    if j < j0 {
        if code_matches(t[j].1, bits, i) {
            let a = t[j].1;
            let b = t[j0].1;
            if a.len() <= b.len() {
                assert(b.subrange(0, a.len() as int) =~= bits.subrange(i, i + a.len()));
                assert(is_prefix(a, b));
            } else {
                assert(a.subrange(0, b.len() as int) =~= bits.subrange(i, i + b.len()));
                assert(is_prefix(b, a));
            }
        }
        lemma_match_unique(t, bits, i, j0, j + 1);
    }
}

proof fn lemma_find_from<T: Symbol, U>(t: Seq<(T, U)>, x: T, j: int)
    requires
        0 <= j <= t.len(),
    ensures
        j <= find_from(t, x, j) <= t.len(),
        find_from(t, x, j) < t.len() ==> t[find_from(t, x, j)].0.key() == x.key(),
    decreases t.len() - j,
{
    if j < t.len() && t[j].0.key() != x.key() {
        lemma_find_from(t, x, j + 1);
    }
}

/// The codes of `data[k..]`, placed after any bits `pre`, decode from there
/// to `data[k..]`.
proof fn lemma_decode_after<T: Symbol>(pre: Seq<u8>, data: Seq<T>, k: int, t: Seq<(T, Seq<u8>)>)
    requires
        table_wf(t),
        covers(t, data),
        0 <= k <= data.len(),
    ensures
        encode_from(data, k, t) is Ok,
        decode_from(pre + encode_from(data, k, t)->Ok_0, pre.len() as int, t) == Ok::<
            Seq<T>,
            HuffmanError,
        >(data.subrange(k, data.len() as int)),
    decreases data.len() - k,
{
    if k == data.len() {
        assert(data.subrange(k, data.len() as int) =~= Seq::<T>::empty());
    } else {
        let x = data[k];
        assert(lookup(t, x) is Some);
        let j0 = find_from(t, x, 0);
        lemma_find_from(t, x, 0);
        let c = t[j0].1;
        lemma_decode_after(pre + c, data, k + 1, t);
        let rest = encode_from(data, k + 1, t)->Ok_0;
        let bits = pre + (c + rest);
        assert(bits =~= (pre + c) + rest);
        let i = pre.len() as int;
        assert(bits.subrange(i, i + c.len()) =~= c);
        lemma_match_unique(t, bits, i, j0, 0);
        T::lemma_key_injective(t[j0].0, x);
        assert(data.subrange(k, data.len() as int) =~= seq![x] + data.subrange(
            k + 1,
            data.len() as int,
        ));
    }
}

/// Decoding the codes of `data` against a usable table that has a code for
/// each of its symbols gives back `data`.
pub proof fn lemma_huffman_round_trip<T: Symbol>(data: Seq<T>, t: Seq<(T, Seq<u8>)>)
    requires
        table_wf(t),
        covers(t, data),
    ensures
        encode_from(data, 0, t) is Ok,
        decode_from(encode_from(data, 0, t)->Ok_0, 0, t) == Ok::<Seq<T>, HuffmanError>(data),
{
    lemma_decode_after(seq![], data, 0, t);
    assert(seq![] + encode_from(data, 0, t)->Ok_0 =~= encode_from(data, 0, t)->Ok_0);
    assert(data.subrange(0, data.len() as int) =~= data);
}

/// Whether `c` is non-empty and starts at bit `i` of `bits`.
fn code_matches_at(c: &Vec<u8>, bits: &[u8], i: usize) -> (r: bool)
    ensures
        r == code_matches(c@, bits@, i as int),
{
    if c.len() == 0 || i > bits.len() || bits.len() - i < c.len() {
        return false;
    }
    let mut k: usize = 0;
    while k < c.len()
        invariant
            i + c.len() <= bits.len(),
            k <= c.len(),
            forall|m: int| 0 <= m < k ==> bits@[i + m] == c@[m],
        decreases c.len() - k,
    {
        if bits[i + k] != c[k] {
            assert(bits@.subrange(i as int, i + c.len())[k as int] != c@[k as int]);
            return false;
        }
        k += 1;
    }
    assert(bits@.subrange(i as int, i + c.len()) =~= c@);
    true
}

/// A Huffman code table: (symbol, code) pairs in leaf order.
pub struct CodeTable<T: Symbol> {
    entries: Vec<(T, Vec<u8>)>,
}

impl<T: Symbol> View for CodeTable<T> {
    type V = Seq<(T, Seq<u8>)>;

    closed spec fn view(&self) -> Seq<(T, Seq<u8>)> {
        codes_view(self.entries@)
    }
}

impl<T: Symbol> CodeTable<T> {
    /// The code table of `tree`: the code of each leaf, left to right, or
    /// the one-bit code `0` when the tree is a single leaf.
    pub fn from_tree(tree: &HuffmanNode<T>) -> (table: Self)
        ensures
            table@ == code_table_of(*tree),
            table_wf(table@),
    {
        proof {
            lemma_code_table_prefix_free(*tree);
        }
        let mut entries: Vec<(T, Vec<u8>)> = Vec::new();
        match tree {
            HuffmanNode::Leaf { value, frequency: _ } => {
                let mut code: Vec<u8> = Vec::new();
                code.push(0);
                entries.push((*value, code));
                assert(codes_view(entries@) =~= code_table_of(*tree));
            },
            HuffmanNode::Internal { .. } => {
                generate_codes(tree, Vec::new(), &mut entries);
                assert(codes_view(entries@) =~= code_table_of(*tree));
            },
        }
        CodeTable { entries }
    }

    /// The (symbol, code) pairs.
    pub fn entries(&self) -> (e: &Vec<(T, Vec<u8>)>)
        ensures
            codes_view(e@) == self@,
    {
        &self.entries
    }

    /// The code of `symbol`, if it has one.
    pub fn code(&self, symbol: T) -> (r: Option<&Vec<u8>>)
        ensures
            match r {
                Some(c) => lookup(self@, symbol) == Some(c@),
                None => lookup(self@, symbol) is None,
            },
    {
        let ghost t = self@;
        let mut j: usize = 0;
        while j < self.entries.len()
            invariant
                t == self@,
                j <= self.entries.len(),
                find_from(t, symbol, 0) == find_from(t, symbol, j as int),
            decreases self.entries.len() - j,
        {
            if self.entries[j].0.same(&symbol) {
                return Some(&self.entries[j].1);
            }
            j += 1;
        }
        None
    }

    /// The codes of the symbols of `data`, one after another.
    pub fn encode(&self, data: &[T]) -> (r: Result<Vec<u8>, HuffmanError>)
        ensures
            match r {
                Ok(bits) => encode_from(data@, 0, self@) == Ok::<Seq<u8>, HuffmanError>(bits@),
                Err(e) => encode_from(data@, 0, self@) == Err::<Seq<u8>, HuffmanError>(e),
            },
    {
        let ghost t = self@;
        let mut out: Vec<u8> = Vec::new();
        let mut k: usize = 0;
        while k < data.len()
            invariant
                t == self@,
                k <= data.len(),
                encode_from(data@, 0, t) == match encode_from(data@, k as int, t) {
                    Ok(rest) => Ok(out@ + rest),
                    Err(e) => Err(e),
                },
            decreases data.len() - k,
        {
            match self.code(data[k]) {
                None => {
                    return Err(HuffmanError::UnknownSymbol { index: k });
                },
                Some(c) => {
                    let ghost before = out@;
                    let mut m: usize = 0;
                    while m < c.len()
                        invariant
                            m <= c.len(),
                            out@ == before + c@.subrange(0, m as int),
                        decreases c.len() - m,
                    {
                        out.push(c[m]);
                        m += 1;
                        assert(out@ =~= before + c@.subrange(0, m as int));
                    }
                    proof {
                        assert(c@.subrange(0, m as int) =~= c@);
                        match encode_from(data@, k + 1, t) {
                            Ok(rest) => {
                                assert(before + (c@ + rest) =~= out@ + rest);
                            },
                            Err(_) => {},
                        }
                    }
                },
            }
            k += 1;
        }
        assert(out@ + Seq::<u8>::empty() =~= out@);
        Ok(out)
    }

    /// Decodes `bits`: at each position, the symbol of the first entry
    /// whose code starts there.
    pub fn decode(&self, bits: &[u8]) -> (r: Result<Vec<T>, HuffmanError>)
        ensures
            match r {
                Ok(symbols) => decode_from(bits@, 0, self@) == Ok::<Seq<T>, HuffmanError>(
                    symbols@,
                ),
                Err(e) => decode_from(bits@, 0, self@) == Err::<Seq<T>, HuffmanError>(e),
            },
    {
        let ghost t = self@;
        let mut out: Vec<T> = Vec::new();
        let mut i: usize = 0;
        while i < bits.len()
            invariant
                t == self@,
                i <= bits.len(),
                decode_from(bits@, 0, t) == match decode_from(bits@, i as int, t) {
                    Ok(rest) => Ok(out@ + rest),
                    Err(e) => Err(e),
                },
            decreases bits.len() - i,
        {
            let mut j: usize = 0;
            while j < self.entries.len() && !code_matches_at(&self.entries[j].1, bits, i)
                invariant
                    t == self@,
                    j <= self.entries.len(),
                    match_from(t, bits@, i as int, 0) == match_from(t, bits@, i as int, j as int),
                decreases self.entries.len() - j,
            {
                j += 1;
            }
            if j == self.entries.len() {
                return Err(HuffmanError::InvalidCode { position: i });
            }
            let symbol = self.entries[j].0;
            let n = self.entries[j].1.len();
            proof {
                assert(t[j as int] == (symbol, self.entries@[j as int].1@));
                lemma_match_from_ok(t, bits@, i as int, j as int);
            }
            let ghost before = out@;
            out.push(symbol);
            proof {
                match decode_from(bits@, i + n, t) {
                    Ok(rest) => {
                        assert(before + (seq![symbol] + rest) =~= out@ + rest);
                    },
                    Err(_) => {},
                }
            }
            i += n;
        }
        assert(out@ + Seq::<T>::empty() =~= out@);
        Ok(out)
    }
}

} // verus!
