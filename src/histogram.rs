//! Occurrence counts of symbols, kept in ascending key order, with their total.

use vstd::prelude::*;
use crate::symbol::{occurrences, Symbol};

verus! {

/// Sum of the counts in `s` whose symbol has the key of `x`.
pub open spec fn tally<T: Symbol>(s: Seq<(T, nat)>, x: T) -> nat
    decreases s.len(),
{
    if s.len() == 0 {
        0
    } else {
        tally(s.drop_last(), x) + if s.last().0.key() == x.key() {
            s.last().1
        } else {
            0nat
        }
    }
}

/// Sum of all counts in `s`.
pub open spec fn tally_total<T>(s: Seq<(T, nat)>) -> nat
    decreases s.len(),
{
    if s.len() == 0 {
        0
    } else {
        tally_total(s.drop_last()) + s.last().1
    }
}

/// The symbols of `s` have strictly increasing keys.
pub open spec fn keys_increasing<T: Symbol>(s: Seq<(T, nat)>) -> bool {
    forall|i: int, j: int| 0 <= i < j < s.len() ==> #[trigger] s[i].0.key() < #[trigger] s[j].0.key()
}

/// Every count in `s` is positive.
pub open spec fn counts_positive<T>(s: Seq<(T, nat)>) -> bool {
    forall|i: int| 0 <= i < s.len() ==> #[trigger] s[i].1 > 0
}

/// A table of counts with its counts read as natural numbers.
pub open spec fn nat_counts<T>(s: Seq<(T, usize)>) -> Seq<(T, nat)> {
    s.map_values(|e: (T, usize)| (e.0, e.1 as nat))
}

pub proof fn lemma_tally_concat<T: Symbol>(a: Seq<(T, nat)>, b: Seq<(T, nat)>, x: T)
    ensures
        tally(a + b, x) == tally(a, x) + tally(b, x),
        tally_total(a + b) == tally_total(a) + tally_total(b),
    decreases b.len(),
{
    if b.len() == 0 {
        assert(a + b =~= a);
    } else {
        lemma_tally_concat(a, b.drop_last(), x);
        assert((a + b).drop_last() =~= a + b.drop_last());
    }
}

pub proof fn lemma_tally_le_total<T: Symbol>(s: Seq<(T, nat)>, x: T)
    ensures
        tally(s, x) <= tally_total(s),
    decreases s.len(),
{
    if s.len() > 0 {
        lemma_tally_le_total(s.drop_last(), x);
    }
}

proof fn lemma_tally_single<T: Symbol>(e: (T, nat), x: T)
    ensures
        tally(seq![e], x) == if e.0.key() == x.key() {
            e.1
        } else {
            0nat
        },
        tally_total(seq![e]) == e.1,
{
    assert(seq![e].drop_last() =~= Seq::<(T, nat)>::empty());
    assert(seq![e].last() == e);
    assert(tally(Seq::<(T, nat)>::empty(), x) == 0);
    assert(tally_total(Seq::<(T, nat)>::empty()) == 0);
}

pub proof fn lemma_entry_le_total<T: Symbol>(s: Seq<(T, nat)>, p: int)
    requires
        0 <= p < s.len(),
    ensures
        s[p].1 <= tally_total(s),
{
    let pre = s.subrange(0, p);
    let post = s.subrange(p + 1, s.len() as int);
    assert(s =~= pre + seq![s[p]] + post);
    lemma_tally_concat(pre + seq![s[p]], post, s[p].0);
    lemma_tally_concat(pre, seq![s[p]], s[p].0);
    lemma_tally_single(s[p], s[p].0);
}

proof fn lemma_tally_update<T: Symbol>(s: Seq<(T, nat)>, p: int, e: (T, nat))
    requires
        0 <= p < s.len(),
        e.0 == s[p].0,
        e.1 == s[p].1 + 1,
    ensures
        forall|x: T|
            #[trigger] tally(s.update(p, e), x) == tally(s, x) + if x.key() == e.0.key() {
                1nat
            } else {
                0nat
            },
        tally_total(s.update(p, e)) == tally_total(s) + 1,
{
    let pre = s.subrange(0, p);
    let post = s.subrange(p + 1, s.len() as int);
    assert(s =~= pre + seq![s[p]] + post);
    assert(s.update(p, e) =~= pre + seq![e] + post);
    assert forall|x: T|
        #[trigger] tally(s.update(p, e), x) == tally(s, x) + if x.key() == e.0.key() {
            1nat
        } else {
            0nat
        } by {
        lemma_tally_concat(pre + seq![e], post, x);
        lemma_tally_concat(pre, seq![e], x);
        lemma_tally_concat(pre + seq![s[p]], post, x);
        lemma_tally_concat(pre, seq![s[p]], x);
        lemma_tally_single(e, x);
        lemma_tally_single(s[p], x);
    }
    lemma_tally_concat(pre + seq![e], post, e.0);
    lemma_tally_concat(pre, seq![e], e.0);
    lemma_tally_concat(pre + seq![s[p]], post, e.0);
    lemma_tally_concat(pre, seq![s[p]], e.0);
    lemma_tally_single(e, e.0);
    lemma_tally_single(s[p], e.0);
}

proof fn lemma_tally_insert<T: Symbol>(s: Seq<(T, nat)>, p: int, e: (T, nat))
    requires
        0 <= p <= s.len(),
        e.1 == 1,
    ensures
        forall|x: T|
            #[trigger] tally(s.insert(p, e), x) == tally(s, x) + if x.key() == e.0.key() {
                1nat
            } else {
                0nat
            },
        tally_total(s.insert(p, e)) == tally_total(s) + 1,
{
    let pre = s.subrange(0, p);
    let post = s.subrange(p, s.len() as int);
    assert(s =~= pre + post);
    assert(s.insert(p, e) =~= pre + seq![e] + post);
    assert forall|x: T|
        #[trigger] tally(s.insert(p, e), x) == tally(s, x) + if x.key() == e.0.key() {
            1nat
        } else {
            0nat
        } by {
        lemma_tally_concat(pre + seq![e], post, x);
        lemma_tally_concat(pre, seq![e], x);
        lemma_tally_concat(pre, post, x);
        lemma_tally_single(e, x);
    }
    lemma_tally_concat(pre + seq![e], post, e.0);
    lemma_tally_concat(pre, seq![e], e.0);
    lemma_tally_concat(pre, post, e.0);
    lemma_tally_single(e, e.0);
}

proof fn lemma_insert_keeps_order<T: Symbol>(s: Seq<(T, nat)>, p: int, e: (T, nat))
    requires
        0 <= p <= s.len(),
        keys_increasing(s),
        forall|i: int| 0 <= i < p ==> #[trigger] s[i].0.key() < e.0.key(),
        p < s.len() ==> s[p].0.key() > e.0.key(),
    ensures
        keys_increasing(s.insert(p, e)),
{
    let n = s.insert(p, e);
    assert forall|i: int, j: int| 0 <= i < j < n.len() implies #[trigger] n[i].0.key()
        < #[trigger] n[j].0.key() by {
        if j < p {
        } else if j == p {
        } else if i < p {
            assert(n[j] == s[j - 1]);
        } else if i == p {
            assert(n[j] == s[j - 1]);
        } else {
            assert(n[j] == s[j - 1]);
            assert(n[i] == s[i - 1]);
        }
    }
}

/// Symbol counts, in ascending key order, and their total.
pub struct Histogram<T: Symbol> {
    counts: Vec<(T, usize)>,
    total_count: usize,
}

impl<T: Symbol> Histogram<T> {
    /// The (symbol, count) entries in ascending key order.
    pub closed spec fn entries(self) -> Seq<(T, nat)> {
        nat_counts(self.counts@)
    }

    /// The number of symbols added.
    pub closed spec fn total(self) -> nat {
        self.total_count as nat
    }

    /// How often `x` was added.
    pub open spec fn count(self, x: T) -> nat {
        tally(self.entries(), x)
    }

    /// Entries in ascending key order, each with a positive count, and the
    /// total equal to the sum of the counts.
    pub open spec fn wf(self) -> bool {
        &&& keys_increasing(self.entries())
        &&& counts_positive(self.entries())
        &&& self.total() == tally_total(self.entries())
    }

    /// An empty histogram.
    pub fn new() -> (h: Self)
        ensures
            h.wf(),
            h.total() == 0,
            h.entries() == Seq::<(T, nat)>::empty(),
    {
        let h = Histogram { counts: Vec::new(), total_count: 0 };
        assert(h.entries() =~= Seq::<(T, nat)>::empty());
        h
    }

    /// Counts one more occurrence of `value`.
    pub fn add(&mut self, value: T)
        requires
            old(self).wf(),
            old(self).total() < usize::MAX,
        ensures
            final(self).wf(),
            final(self).total() == old(self).total() + 1,
            forall|x: T|
                #[trigger] final(self).count(x) == old(self).count(x) + if x.key() == value.key() {
                    1nat
                } else {
                    0nat
                },
    {
        let ghost old_entries = self.entries();
        let mut p: usize = 0;
        while p < self.counts.len() && self.counts[p].0.precedes(&value)
            invariant
                p <= self.counts.len(),
                self.entries() == old_entries,
                keys_increasing(old_entries),
                forall|i: int| 0 <= i < p ==> #[trigger] old_entries[i].0.key() < value.key(),
            decreases self.counts.len() - p,
        {
            p += 1;
        }
        let ghost s = old_entries;
        if p < self.counts.len() && self.counts[p].0.same(&value) {
            let (sym, c) = self.counts[p];
            proof {
                lemma_entry_le_total(s, p as int);
            }
            self.counts.set(p, (sym, c + 1));
            self.total_count = self.total_count + 1;
            proof {
                let e = (sym, (c + 1) as nat);
                assert(self.entries() =~= s.update(p as int, e));
                lemma_tally_update(s, p as int, e);
            }
        } else {
            self.counts.insert(p, (value, 1));
            self.total_count = self.total_count + 1;
            proof {
                let e = (value, 1nat);
                assert(self.entries() =~= s.insert(p as int, e));
                lemma_tally_insert(s, p as int, e);
                if p < s.len() {
                    if s[p as int].0.key() == value.key() {
                        T::lemma_key_injective(s[p as int].0, value);
                    }
                }
                lemma_insert_keeps_order(s, p as int, e);
            }
        }
    }

    /// Number of symbols added.
    pub fn total_count(&self) -> (n: usize)
        ensures
            n == self.total(),
    {
        self.total_count
    }

    /// The (symbol, count) entries in ascending key order.
    pub fn counts(&self) -> (c: &Vec<(T, usize)>)
        ensures
            nat_counts(c@) == self.entries(),
    {
        &self.counts
    }

    /// How often `x` was added.
    pub fn count_of(&self, x: T) -> (n: usize)
        requires
            self.wf(),
        ensures
            n == self.count(x),
    {
        let ghost s = self.entries();
        let mut n: usize = 0;
        let mut i: usize = 0;
        while i < self.counts.len()
            invariant
                self.wf(),
                s == self.entries(),
                i <= self.counts.len(),
                n == tally(s.subrange(0, i as int), x),
            decreases self.counts.len() - i,
        {
            proof {
                assert(s.subrange(0, i + 1).drop_last() =~= s.subrange(0, i as int));
                lemma_tally_concat(s.subrange(0, i + 1), s.subrange(i + 1, s.len() as int), x);
                assert(s =~= s.subrange(0, i + 1) + s.subrange(i + 1, s.len() as int));
                lemma_tally_le_total(s, x);
            }
            if self.counts[i].0.same(&x) {
                n = n + self.counts[i].1;
            }
            i += 1;
        }
        assert(s.subrange(0, i as int) =~= s);
        n
    }

    /// The counts of every symbol from `min` to `max` in ascending order,
    /// zero for those never added.
    pub fn full_range(&self, min: T, max: T) -> (rows: Vec<(T, usize)>)
        requires
            self.wf(),
        ensures
            rows.len() == if min.key() <= max.key() {
                max.key() - min.key() + 1
            } else {
                0
            },
            forall|i: int|
                0 <= i < rows.len() ==> (#[trigger] rows[i]).0.key() == min.key() + i
                    && rows[i].1 == self.count(rows[i].0),
    {
        let mut rows: Vec<(T, usize)> = Vec::new();
        if max.precedes(&min) {
            return rows;
        }
        let mut current = min;
        loop
            invariant
                self.wf(),
                min.key() <= current.key() <= max.key(),
                rows.len() == current.key() - min.key(),
                forall|i: int|
                    0 <= i < rows.len() ==> (#[trigger] rows[i]).0.key() == min.key() + i
                        && rows[i].1 == self.count(rows[i].0),
            decreases max.key() - current.key(),
        {
            let n = self.count_of(current);
            rows.push((current, n));
            if current.same(&max) {
                return rows;
            }
            match current.successor() {
                Some(next) => {
                    current = next;
                },
                None => {
                    assert(max.key() <= current.key());
                    return rows;
                },
            }
        }
    }

    /// The histogram of `data`.
    pub fn from_symbols(data: &[T]) -> (h: Self)
        ensures
            h.wf(),
            h.total() == data.len(),
            forall|x: T| #[trigger] h.count(x) == occurrences(data@, x),
    {
        let mut h = Self::new();
        let mut i: usize = 0;
        while i < data.len()
            invariant
                i <= data.len(),
                h.wf(),
                h.total() == i,
                forall|x: T| #[trigger] h.count(x) == occurrences(data@.subrange(0, i as int), x),
            decreases data.len() - i,
        {
            h.add(data[i]);
            assert(data@.subrange(0, i + 1).drop_last() =~= data@.subrange(0, i as int));
            i += 1;
        }
        assert(data@.subrange(0, i as int) =~= data@);
        h
    }
}

impl<T: Symbol> Default for Histogram<T> {
    fn default() -> (h: Self)
        ensures
            h.wf(),
            h.total() == 0,
            h.entries() == Seq::<(T, nat)>::empty(),
    {
        Self::new()
    }
}

/// The total of a histogram is the sum of its counts; with a single
/// distinct symbol, that symbol's count is the total, so its relative
/// frequency is 1 and the entropy is 0.
pub proof fn lemma_total_is_sum_of_counts<T: Symbol>(h: Histogram<T>)
    requires
        h.wf(),
    ensures
        h.total() == tally_total(h.entries()),
        h.entries().len() == 1 ==> h.entries()[0].1 == h.total(),
{
    if h.entries().len() == 1 {
        let s = h.entries();
        assert(s.drop_last() =~= Seq::<(T, nat)>::empty());
        assert(tally_total(s.drop_last()) == 0);
        assert(s.last() == s[0]);
    }
}

} // verus!
