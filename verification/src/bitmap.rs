//! Dense container: a fixed 65,536-bit bit-array held as 1,024 words, with a
//! cached population count.
//!
//! The model of a word vector is `elems_upto(words, n)`: the strictly
//! ascending sequence of bit positions below `n` whose bit is set. The cached
//! count always equals the length of that sequence at `n == 65,536`.

use vstd::prelude::*;
use crate::bits::{bit64, count_upto, lemma_count_upto_bounds, popcount64};
use crate::seqs::{sorted16, count_le16, lemma_sorted16_count_le};

verus! {

/// Number of 64-bit words in a dense container.
pub const BITMAP_SIZE: usize = 1024;

/// Bit `v` of a vector of 64-bit words.
pub open spec fn seq_bit(words: Seq<u64>, v: int) -> bool {
    bit64(words[v / 64], (v % 64) as u64)
}

/// The ascending sequence of set bit positions below `n`.
pub open spec fn elems_upto(words: Seq<u64>, n: int) -> Seq<u16>
    decreases n,
{
    if n <= 0 {
        Seq::empty()
    } else if seq_bit(words, n - 1) {
        elems_upto(words, n - 1).push((n - 1) as u16)
    } else {
        elems_upto(words, n - 1)
    }
}

/// Membership, order and bounds of `elems_upto`: it holds exactly the
/// positions below `n` whose bit is set, in strictly ascending order.
pub proof fn lemma_elems_upto_props(words: Seq<u64>, n: int)
    requires
        0 <= n <= 0x10000,
    ensures
        forall|v: u16|
            elems_upto(words, n).contains(v) == ((v as int) < n && seq_bit(words, v as int)),
        sorted16(elems_upto(words, n)),
        elems_upto(words, n).len() <= n,
        forall|k: int| 0 <= k < elems_upto(words, n).len() ==> (elems_upto(words, n)[k] as int) < n,
    decreases n,
{
    if n > 0 {
        lemma_elems_upto_props(words, n - 1);
        let s0 = elems_upto(words, n - 1);
        let s = elems_upto(words, n);
        if seq_bit(words, n - 1) {
            let x = (n - 1) as u16;
            assert forall|v: u16|
                s.contains(v) == ((v as int) < n && seq_bit(words, v as int)) by {
                crate::seqs::lemma_push_contains(s0, x, v);
            }
            assert forall|i: int, j: int| 0 <= i < j < s.len() implies s[i] < s[j] by {
                if j == s.len() - 1 {
                    assert((s0[i] as int) < n - 1);
                }
            }
        }
    }
}

/// Word vectors that agree on every bit below `n` generate the same sequence.
pub proof fn lemma_elems_upto_agree(w1: Seq<u64>, w2: Seq<u64>, n: int)
    requires
        forall|v: int| 0 <= v < n ==> seq_bit(w1, v) == seq_bit(w2, v),
    ensures
        elems_upto(w1, n) == elems_upto(w2, n),
    decreases n,
{
    if n > 0 {
        lemma_elems_upto_agree(w1, w2, n - 1);
    }
}

/// Setting one clear bit lengthens the sequence by one, once the position is
/// in view.
pub proof fn lemma_elems_upto_flip(w1: Seq<u64>, w2: Seq<u64>, t: int, n: int)
    requires
        0 <= t,
        forall|v: int| 0 <= v < n && v != t ==> seq_bit(w1, v) == seq_bit(w2, v),
        !seq_bit(w1, t),
        seq_bit(w2, t),
    ensures
        elems_upto(w2, n).len() == elems_upto(w1, n).len() + if t < n {
            1int
        } else {
            0int
        },
    decreases n,
{
    if n > 0 {
        lemma_elems_upto_flip(w1, w2, t, n - 1);
    }
}

/// Counting by words: the bits of word `i` below position `j` extend the
/// count at the word boundary.
pub proof fn lemma_elems_upto_word_count(words: Seq<u64>, i: int, j: int)
    requires
        0 <= i,
        0 <= j <= 64,
    ensures
        elems_upto(words, i * 64 + j).len() == elems_upto(words, i * 64).len() + count_upto(
            words[i],
            j,
        ),
    decreases j,
{
    if j > 0 {
        lemma_elems_upto_word_count(words, i, j - 1);
        let v = i * 64 + (j - 1);
        assert(v / 64 == i && v % 64 == j - 1) by (nonlinear_arith)
            requires
                0 <= i && 0 <= j - 1 < 64 && v == i * 64 + (j - 1),
        ;
    }
}

/// The sequence at a smaller bound is a prefix of the sequence at a larger
/// bound.
pub proof fn lemma_elems_upto_prefix(words: Seq<u64>, m: int, n: int)
    requires
        0 <= m <= n,
    ensures
        elems_upto(words, m).len() <= elems_upto(words, n).len(),
        forall|k: int|
            0 <= k < elems_upto(words, m).len() ==> elems_upto(words, n)[k] == elems_upto(
                words,
                m,
            )[k],
    decreases n - m,
{
    if m < n {
        lemma_elems_upto_prefix(words, m, n - 1);
    }
}

/// Entries not exceeding `v` are exactly the sequence below `v + 1`.
pub proof fn lemma_count_le_elems(words: Seq<u64>, v: u16, n: int)
    requires
        v + 1 <= n <= 0x10000,
    ensures
        count_le16(elems_upto(words, n), v) == elems_upto(words, v + 1).len(),
    decreases n,
{
    if n == v + 1 {
        let s = elems_upto(words, n);
        lemma_elems_upto_props(words, n);
        lemma_sorted16_count_le(s, v, s.len() as int);
    } else {
        lemma_count_le_elems(words, v, n - 1);
        let s0 = elems_upto(words, n - 1);
        if seq_bit(words, n - 1) {
            let s = s0.push((n - 1) as u16);
            assert(s.drop_last() =~= s0);
            assert(s.last() == (n - 1) as u16);
        }
    }
}

pub struct BitmapContainer {
    pub words: Vec<u64>,
    pub count: usize,
}

impl BitmapContainer {
    pub open spec fn elems(&self) -> Seq<u16> {
        elems_upto(self.words@, 0x10000)
    }

    pub open spec fn wf(&self) -> bool {
        self.words@.len() == 1024 && self.count == self.elems().len()
    }

    pub open spec fn contains_spec(&self, value: u16) -> bool {
        seq_bit(self.words@, value as int)
    }

    /// Membership in the element sequence matches the bit test.
    pub proof fn lemma_contains_elems(&self)
        ensures
            forall|v: u16| self.elems().contains(v) == self.contains_spec(v),
            sorted16(self.elems()),
            self.elems().len() <= 0x10000,
    {
        lemma_elems_upto_props(self.words@, 0x10000);
    }

    pub fn new() -> (r: BitmapContainer)
        ensures
            r.wf(),
            r.elems() == Seq::<u16>::empty(),
            forall|v: u16| !r.contains_spec(v),
    {
        let mut words: Vec<u64> = Vec::new();
        let mut i: usize = 0;
        while i < 1024
            invariant
                i <= 1024,
                words@.len() == i,
                forall|k: int| 0 <= k < i ==> words@[k] == 0u64,
            decreases 1024 - i,
        {
            words.push(0u64);
            i = i + 1;
        }
        let r = BitmapContainer { words, count: 0 };
        proof {
            assert forall|v: u16| !r.contains_spec(v) by {
                crate::bits::lemma_zero_word((v as int % 64) as u64);
            }
            lemma_elems_upto_props(r.words@, 0x10000);
            if r.elems().len() > 0 {
                let x = r.elems()[0];
                assert(r.elems().contains(x)) by {
                    assert(r.elems()[0] == x);
                }
                assert(seq_bit(r.words@, x as int));
                assert(!r.contains_spec(x));
                assert(false);
            }
            assert(r.elems() =~= Seq::<u16>::empty());
        }
        r
    }

    pub(crate) fn cardinality(&self) -> (r: usize)
        requires
            self.wf(),
        ensures
            r == self.elems().len(),
    {
        self.count
    }

    pub(crate) fn is_empty(&self) -> (r: bool)
        requires
            self.wf(),
        ensures
            r == (self.elems().len() == 0),
    {
        self.count == 0
    }

    pub(crate) fn contains(&self, value: u16) -> (r: bool)
        requires
            self.wf(),
        ensures
            r == self.contains_spec(value),
    {
        let w: usize = (value as usize) / 64;
        let b: u64 = (value as u64) % 64;
        ((self.words[w] >> b) & 1u64) == 1u64
    }

    /// Sets the bit for `value` and maintains the cached count; reports
    /// whether the set grew.
    pub(crate) fn add(&mut self, value: u16) -> (added: bool)
        requires
            old(self).wf(),
        ensures
            final(self).wf(),
            added == !old(self).contains_spec(value),
            forall|v: u16|
                final(self).contains_spec(v) == (old(self).contains_spec(v) || v == value),
            final(self).elems().len() == old(self).elems().len() + if added {
                1int
            } else {
                0int
            },
    {
        let w: usize = (value as usize) / 64;
        let b: u64 = (value as u64) % 64;
        let word = self.words[w];
        if ((word >> b) & 1u64) == 1u64 {
            proof {
                assert(forall|v: u16|
                    self.contains_spec(v) == (self.contains_spec(v) || v == value));
            }
            false
        } else {
            let ghost pre = self.words@;
            self.words[w] = word | (1u64 << b);
            proof {
                crate::bits::lemma_bit_set(word, b);
                assert forall|v: int| 0 <= v < 0x10000 && v != value as int implies seq_bit(pre, v)
                    == seq_bit(self.words@, v) by {
                    assert(0 <= v / 64 < 1024) by (nonlinear_arith)
                        requires
                            0 <= v < 0x10000,
                    ;
                    if v / 64 == w as int {
                        vstd::arithmetic::div_mod::lemma_fundamental_div_mod(v, 64);
                        vstd::arithmetic::div_mod::lemma_fundamental_div_mod(value as int, 64);
                        assert((v % 64) as u64 != b);
                    }
                }
                assert(seq_bit(self.words@, value as int));
                lemma_elems_upto_flip(pre, self.words@, value as int, 0x10000);
                lemma_elems_upto_props(self.words@, 0x10000);
            }
            self.count = self.count + 1;
            true
        }
    }

    /// Clears the bit for `value` and maintains the cached count; reports
    /// whether the set shrank.
    pub(crate) fn remove(&mut self, value: u16) -> (removed: bool)
        requires
            old(self).wf(),
        ensures
            final(self).wf(),
            removed == old(self).contains_spec(value),
            forall|v: u16|
                final(self).contains_spec(v) == (old(self).contains_spec(v) && v != value),
            old(self).elems().len() == final(self).elems().len() + if removed {
                1int
            } else {
                0int
            },
    {
        let w: usize = (value as usize) / 64;
        let b: u64 = (value as u64) % 64;
        let word = self.words[w];
        if ((word >> b) & 1u64) == 1u64 {
            let ghost pre = self.words@;
            self.words[w] = word & !(1u64 << b);
            proof {
                crate::bits::lemma_bit_clear(word, b);
                assert forall|v: int| 0 <= v < 0x10000 && v != value as int implies seq_bit(pre, v)
                    == seq_bit(self.words@, v) by {
                    assert(0 <= v / 64 < 1024) by (nonlinear_arith)
                        requires
                            0 <= v < 0x10000,
                    ;
                    if v / 64 == w as int {
                        vstd::arithmetic::div_mod::lemma_fundamental_div_mod(v, 64);
                        vstd::arithmetic::div_mod::lemma_fundamental_div_mod(value as int, 64);
                        assert((v % 64) as u64 != b);
                    }
                }
                assert(!seq_bit(self.words@, value as int));
                lemma_elems_upto_flip(self.words@, pre, value as int, 0x10000);
                lemma_elems_upto_props(pre, 0x10000);
                lemma_elems_upto_props(self.words@, 0x10000);
            }
            self.count = self.count - 1;
            true
        } else {
            false
        }
    }

    /// Builds a dense container holding exactly the listed values.
    pub fn from_iter(values: &Vec<u16>) -> (r: BitmapContainer)
        ensures
            r.wf(),
            forall|v: u16| r.contains_spec(v) == values@.contains(v),
    {
        let mut r = BitmapContainer::new();
        let mut i: usize = 0;
        while i < values.len()
            invariant
                i <= values@.len(),
                r.wf(),
                forall|v: u16| r.contains_spec(v) == values@.take(i as int).contains(v),
            decreases values@.len() - i,
        {
            let x = values[i];
            r.add(x);
            proof {
                assert(values@.take(i + 1) =~= values@.take(i as int).push(values@[i as int]));
                assert forall|v: u16|
                    r.contains_spec(v) == values@.take(i + 1).contains(v) by {
                    crate::seqs::lemma_push_contains(values@.take(i as int), x, v);
                }
            }
            i = i + 1;
        }
        proof {
            assert(values@.take(values@.len() as int) =~= values@);
        }
        r
    }

    pub(crate) fn duplicate(&self) -> (r: BitmapContainer)
        requires
            self.wf(),
        ensures
            r.wf(),
            r.elems() == self.elems(),
            r.words@ == self.words@,
    {
        let mut words: Vec<u64> = Vec::new();
        let mut i: usize = 0;
        while i < self.words.len()
            invariant
                i <= self.words@.len(),
                words@ == self.words@.take(i as int),
            decreases self.words@.len() - i,
        {
            words.push(self.words[i]);
            proof {
                assert(self.words@.take(i + 1) =~= self.words@.take(i as int).push(
                    self.words@[i as int],
                ));
            }
            i = i + 1;
        }
        proof {
            assert(words@ =~= self.words@);
        }
        BitmapContainer { words, count: self.count }
    }

    /// The elements in ascending order.
    pub(crate) fn to_vec(&self) -> (r: Vec<u16>)
        requires
            self.wf(),
        ensures
            r@ == self.elems(),
    {
        words_to_vec(&self.words)
    }

    /// The least element: the first set bit.
    pub(crate) fn minimum(&self) -> (r: Option<u16>)
        requires
            self.wf(),
        ensures
            r == if self.elems().len() == 0 {
                Option::<u16>::None
            } else {
                Option::<u16>::Some(self.elems()[0])
            },
    {
        let mut n: usize = 0;
        while n < 0x10000
            invariant
                n <= 0x10000,
                self.wf(),
                forall|u: int| 0 <= u < n ==> !seq_bit(self.words@, u),
            decreases 0x10000 - n,
        {
            let w: usize = n / 64;
            let b: u64 = (n as u64) % 64;
            proof {
                assert(w as int == n as int / 64);
                assert(b as int == n as int % 64);
            }
            if ((self.words[w] >> b) & 1u64) == 1u64 {
                proof {
                    lemma_elems_upto_props(self.words@, 0x10000);
                    assert(seq_bit(self.words@, n as int));
                    assert(self.elems().contains(n as u16));
                    let k = choose|k: int|
                        0 <= k < self.elems().len() && self.elems()[k] == n as u16;
                    assert(self.elems().contains(self.elems()[0])) by {
                        assert(self.elems()[0] == self.elems()[0]);
                    }
                    assert(seq_bit(self.words@, self.elems()[0] as int));
                    if k > 0 {
                        assert(self.elems()[0] < self.elems()[k]);
                    }
                }
                return Some(n as u16);
            }
            n = n + 1;
        }
        proof {
            lemma_elems_upto_props(self.words@, 0x10000);
            if self.elems().len() > 0 {
                let x = self.elems()[0];
                assert(self.elems().contains(x)) by {
                    assert(self.elems()[0] == x);
                }
                assert(seq_bit(self.words@, x as int));
                assert(false);
            }
        }
        None
    }

    /// The greatest element: the last set bit, scanning words from the top.
    pub(crate) fn maximum(&self) -> (r: Option<u16>)
        requires
            self.wf(),
        ensures
            r == if self.elems().len() == 0 {
                Option::<u16>::None
            } else {
                Option::<u16>::Some(self.elems().last())
            },
    {
        let mut n: usize = 0x10000;
        while n > 0
            invariant
                n <= 0x10000,
                self.wf(),
                forall|u: int| n <= u < 0x10000 ==> !seq_bit(self.words@, u),
            decreases n,
        {
            n = n - 1;
            let w: usize = n / 64;
            let b: u64 = (n as u64) % 64;
            proof {
                assert(w as int == n as int / 64);
                assert(b as int == n as int % 64);
            }
            if ((self.words[w] >> b) & 1u64) == 1u64 {
                proof {
                    lemma_elems_upto_props(self.words@, 0x10000);
                    assert(seq_bit(self.words@, n as int));
                    assert(self.elems().contains(n as u16));
                    let k = choose|k: int|
                        0 <= k < self.elems().len() && self.elems()[k] == n as u16;
                    let last = self.elems().last();
                    assert(self.elems().contains(last)) by {
                        assert(self.elems()[self.elems().len() - 1] == last);
                    }
                    assert(seq_bit(self.words@, last as int));
                    if k < self.elems().len() - 1 {
                        assert(self.elems()[k] < self.elems()[self.elems().len() - 1]);
                    }
                }
                return Some(n as u16);
            }
        }
        proof {
            lemma_elems_upto_props(self.words@, 0x10000);
            if self.elems().len() > 0 {
                let x = self.elems()[0];
                assert(self.elems().contains(x)) by {
                    assert(self.elems()[0] == x);
                }
                assert(seq_bit(self.words@, x as int));
                assert(false);
            }
        }
        None
    }
}

/// A word-wise set operation.
#[derive(Clone, Copy)]
pub(crate) enum WordOp {
    Or,
    And,
    AndNot,
    Xor,
}

pub(crate) open spec fn word_op(op: WordOp, x: u64, y: u64) -> u64 {
    match op {
        WordOp::Or => x | y,
        WordOp::And => x & y,
        WordOp::AndNot => x & !y,
        WordOp::Xor => x ^ y,
    }
}

pub(crate) open spec fn bool_op(op: WordOp, x: bool, y: bool) -> bool {
    match op {
        WordOp::Or => x || y,
        WordOp::And => x && y,
        WordOp::AndNot => x && !y,
        WordOp::Xor => x != y,
    }
}

proof fn lemma_word_op_bits(op: WordOp, x: u64, y: u64)
    ensures
        forall|i: u64|
            i < 64 ==> #[trigger] bit64(word_op(op, x, y), i) == bool_op(
                op,
                bit64(x, i),
                bit64(y, i),
            ),
{
    match op {
        WordOp::Or => crate::bits::lemma_bit_or(x, y),
        WordOp::And => crate::bits::lemma_bit_and(x, y),
        WordOp::AndNot => crate::bits::lemma_bit_andnot(x, y),
        WordOp::Xor => crate::bits::lemma_bit_xor(x, y),
    }
}

/// Applies `op` word by word, summing the population counts of the result as
/// it goes; the sum becomes the cached count of the new container.
pub(crate) fn combine_words(a: &Vec<u64>, b: &Vec<u64>, op: WordOp) -> (r: BitmapContainer)
    requires
        a@.len() == 1024,
        b@.len() == 1024,
    ensures
        r.wf(),
        forall|v: u16|
            r.contains_spec(v) == bool_op(op, seq_bit(a@, v as int), seq_bit(b@, v as int)),
{
    let mut words: Vec<u64> = Vec::new();
    let mut count: usize = 0;
    let mut i: usize = 0;
    while i < 1024
        invariant
            i <= 1024,
            a@.len() == 1024,
            b@.len() == 1024,
            words@.len() == i,
            count == elems_upto(words@, 64 * (i as int)).len(),
            count <= 64 * i,
            forall|k: int| 0 <= k < i ==> words@[k] == word_op(op, a@[k], b@[k]),
        decreases 1024 - i,
    {
        let x = a[i];
        let y = b[i];
        let w = match op {
            WordOp::Or => x | y,
            WordOp::And => x & y,
            WordOp::AndNot => x & !y,
            WordOp::Xor => x ^ y,
        };
        let p = popcount64(w);
        let ghost pre = words@;
        words.push(w);
        proof {
            assert forall|u: int| 0 <= u < 64 * (i as int) implies seq_bit(pre, u) == seq_bit(
                words@,
                u,
            ) by {
                assert(0 <= u / 64 < i as int) by (nonlinear_arith)
                    requires
                        0 <= u < 64 * (i as int),
                ;
            }
            lemma_elems_upto_agree(pre, words@, 64 * (i as int));
            lemma_elems_upto_word_count(words@, i as int, 64);
            lemma_count_upto_bounds(w, 64);
            assert(64 * (i as int) + 64 == 64 * (i as int + 1));
        }
        count = count + p;
        i = i + 1;
    }
    let r = BitmapContainer { words, count };
    proof {
        assert forall|v: u16|
            r.contains_spec(v) == bool_op(op, seq_bit(a@, v as int), seq_bit(b@, v as int)) by {
            let vi = v as int;
            assert(0 <= vi / 64 < 1024 && 0 <= vi % 64 < 64) by (nonlinear_arith)
                requires
                    0 <= vi < 0x10000,
            ;
            let k = vi / 64;
            let m = (vi % 64) as u64;
            assert(r.words@[k] == word_op(op, a@[k], b@[k]));
            lemma_word_op_bits(op, a@[k], b@[k]);
            assert(bit64(word_op(op, a@[k], b@[k]), m) == bool_op(
                op,
                bit64(a@[k], m),
                bit64(b@[k], m),
            ));
        }
    }
    r
}

impl BitmapContainer {
    /// Clears the bit of every listed value; returns how many were set.
    pub(crate) fn remove_values(&mut self, values: &Vec<u16>) -> (removed: usize)
        requires
            old(self).wf(),
        ensures
            final(self).wf(),
            forall|v: u16|
                final(self).contains_spec(v) == (old(self).contains_spec(v) && !values@.contains(
                    v,
                )),
            old(self).elems().len() == final(self).elems().len() + removed,
    {
        proof {
            lemma_elems_upto_props(self.words@, 0x10000);
        }
        let mut removed: usize = 0;
        let mut i: usize = 0;
        while i < values.len()
            invariant
                i <= values@.len(),
                self.wf(),
                old(self).elems().len() <= 0x10000,
                old(self).elems().len() == self.elems().len() + removed,
                forall|v: u16|
                    self.contains_spec(v) == (old(self).contains_spec(v) && !values@.take(
                        i as int,
                    ).contains(v)),
            decreases values@.len() - i,
        {
            let x = values[i];
            if self.remove(x) {
                removed = removed + 1;
            }
            proof {
                assert(values@.take(i + 1) =~= values@.take(i as int).push(values@[i as int]));
                assert forall|v: u16|
                    self.contains_spec(v) == (old(self).contains_spec(v) && !values@.take(
                        i + 1,
                    ).contains(v)) by {
                    crate::seqs::lemma_push_contains(values@.take(i as int), x, v);
                }
            }
            i = i + 1;
        }
        proof {
            assert(values@.take(values@.len() as int) =~= values@);
        }
        removed
    }

    /// The element with `idx` smaller elements below it, if any: words whose
    /// whole population fits below the target are skipped, then the word that
    /// holds the answer is scanned bit by bit.
    pub(crate) fn select(&self, idx: usize) -> (r: Option<u16>)
        requires
            self.wf(),
        ensures
            r == if idx < self.elems().len() {
                Option::<u16>::Some(self.elems()[idx as int])
            } else {
                Option::<u16>::None
            },
    {
        let mut wi: usize = 0;
        let mut remaining: usize = idx;
        while wi < 1024
            invariant
                wi <= 1024,
                self.wf(),
                elems_upto(self.words@, 64 * (wi as int)).len() <= idx,
                remaining == idx - elems_upto(self.words@, 64 * (wi as int)).len(),
            decreases 1024 - wi,
        {
            let word = self.words[wi];
            let p = popcount64(word);
            proof {
                lemma_elems_upto_word_count(self.words@, wi as int, 64);
                assert(64 * (wi as int) + 64 == 64 * (wi as int + 1));
            }
            if remaining >= p {
                remaining = remaining - p;
                wi = wi + 1;
            } else {
                let mut b: usize = 0;
                while b < 64
                    invariant
                        b <= 64,
                        wi < 1024,
                        self.wf(),
                        word == self.words@[wi as int],
                        elems_upto(self.words@, 64 * (wi as int) + b as int).len() <= idx,
                        remaining == idx - elems_upto(
                            self.words@,
                            64 * (wi as int) + b as int,
                        ).len(),
                        idx < elems_upto(self.words@, 64 * (wi as int) + 64).len(),
                    decreases 64 - b,
                {
                    let ghost m = 64 * (wi as int) + b as int;
                    proof {
                        assert(m / 64 == wi as int && m % 64 == b as int) by (nonlinear_arith)
                            requires
                                m == 64 * (wi as int) + b as int && 0 <= b < 64 && 0 <= wi,
                        ;
                    }
                    if ((word >> (b as u64)) & 1u64) == 1u64 {
                        proof {
                            assert(seq_bit(self.words@, m));
                            assert(elems_upto(self.words@, m + 1) == elems_upto(
                                self.words@,
                                m,
                            ).push(m as u16));
                        }
                        if remaining == 0 {
                            proof {
                                lemma_elems_upto_prefix(self.words@, m + 1, 0x10000);
                                assert(elems_upto(self.words@, m + 1)[idx as int] == m as u16);
                                lemma_elems_upto_prefix(
                                    self.words@,
                                    64 * (wi as int) + 64,
                                    0x10000,
                                );
                            }
                            return Some((wi * 64 + b) as u16);
                        }
                        remaining = remaining - 1;
                    } else {
                        proof {
                            assert(!seq_bit(self.words@, m));
                        }
                    }
                    b = b + 1;
                }
                proof {
                    assert(false);
                }
                return None;
            }
        }
        proof {
            lemma_elems_upto_prefix(self.words@, 0x10000int, 0x10000int);
        }
        None
    }

    /// Number of elements that do not exceed `value`: whole words below the
    /// position are counted by popcount, the final word bit by bit.
    pub(crate) fn rank(&self, value: u16) -> (r: usize)
        requires
            self.wf(),
        ensures
            r == count_le16(self.elems(), value),
    {
        let target: usize = value as usize + 1;
        let full: usize = target / 64;
        let rem: usize = target % 64;
        let mut acc: usize = 0;
        let mut i: usize = 0;
        while i < full
            invariant
                i <= full,
                full <= 1024,
                self.wf(),
                acc == elems_upto(self.words@, 64 * (i as int)).len(),
                acc <= 64 * i,
            decreases full - i,
        {
            let p = popcount64(self.words[i]);
            proof {
                lemma_elems_upto_word_count(self.words@, i as int, 64);
                lemma_count_upto_bounds(self.words@[i as int], 64);
                assert(64 * (i as int) + 64 == 64 * (i as int + 1));
            }
            acc = acc + p;
            i = i + 1;
        }
        if rem > 0 {
            let word = self.words[full];
            let mut b: usize = 0;
            while b < rem
                invariant
                    b <= rem,
                    rem < 64,
                    full < 1024,
                    self.wf(),
                    word == self.words@[full as int],
                    acc == elems_upto(self.words@, 64 * (full as int) + b as int).len(),
                    acc <= 64 * (full as int) + b,
                decreases rem - b,
            {
                let ghost m = 64 * (full as int) + b as int;
                proof {
                    assert(m / 64 == full as int && m % 64 == b as int) by (nonlinear_arith)
                        requires
                            m == 64 * (full as int) + b as int && 0 <= b < 64 && 0 <= full,
                    ;
                }
                if ((word >> (b as u64)) & 1u64) == 1u64 {
                    acc = acc + 1;
                } else {
                    proof {
                        assert(!seq_bit(self.words@, m));
                    }
                }
                b = b + 1;
            }
        }
        proof {
            assert(64 * (full as int) + rem as int == target as int);
            lemma_count_le_elems(self.words@, value, 0x10000);
        }
        acc
    }

    /// Whether every element here is also in `other`: a word-wise check that
    /// `self`'s word adds no bit outside `other`'s.
    pub(crate) fn is_subset_bitmap(&self, other: &BitmapContainer) -> (r: bool)
        requires
            self.wf(),
            other.wf(),
        ensures
            r == forall|v: u16| self.contains_spec(v) ==> other.contains_spec(v),
    {
        let mut i: usize = 0;
        while i < 1024
            invariant
                i <= 1024,
                self.wf(),
                other.wf(),
                forall|u: int|
                    0 <= u < 64 * (i as int) ==> (seq_bit(self.words@, u) ==> seq_bit(
                        other.words@,
                        u,
                    )),
            decreases 1024 - i,
        {
            let x = self.words[i];
            let y = other.words[i];
            if (x & !y) != 0u64 {
                proof {
                    crate::bits::lemma_nonzero_has_bit(x & !y);
                    let b = choose|b: u64| b < 64 && bit64(x & !y, b);
                    crate::bits::lemma_bit_andnot(x, y);
                    let u = 64 * (i as int) + b as int;
                    assert(u / 64 == i as int && u % 64 == b as int) by (nonlinear_arith)
                        requires
                            u == 64 * (i as int) + b as int && 0 <= b < 64 && 0 <= i,
                    ;
                    assert(seq_bit(self.words@, u) && !seq_bit(other.words@, u));
                    assert(0 <= u < 0x10000) by (nonlinear_arith)
                        requires
                            u == 64 * (i as int) + b as int && 0 <= b < 64 && 0 <= (i as int)
                                < 1024,
                    ;
                    let v = u as u16;
                    assert(self.contains_spec(v) && !other.contains_spec(v));
                }
                return false;
            }
            proof {
                assert forall|u: int|
                    64 * (i as int) <= u < 64 * (i as int) + 64 implies (seq_bit(self.words@, u)
                    ==> seq_bit(other.words@, u)) by {
                    assert(u / 64 == i as int && 0 <= u % 64 < 64) by (nonlinear_arith)
                        requires
                            64 * (i as int) <= u < 64 * (i as int) + 64 && 0 <= i,
                    ;
                    crate::bits::lemma_bit_andnot(x, y);
                    crate::bits::lemma_zero_word((u % 64) as u64);
                }
                assert(64 * (i as int) + 64 == 64 * (i as int + 1));
            }
            i = i + 1;
        }
        true
    }

    /// Whether the two dense containers share an element: word-wise AND with
    /// an early exit on the first overlapping word.
    pub(crate) fn intersects_bitmap(&self, other: &BitmapContainer) -> (r: bool)
        requires
            self.wf(),
            other.wf(),
        ensures
            r == exists|v: u16| self.contains_spec(v) && other.contains_spec(v),
    {
        let mut i: usize = 0;
        while i < 1024
            invariant
                i <= 1024,
                self.wf(),
                other.wf(),
                forall|u: int|
                    0 <= u < 64 * (i as int) ==> !(seq_bit(self.words@, u) && seq_bit(
                        other.words@,
                        u,
                    )),
            decreases 1024 - i,
        {
            let x = self.words[i];
            let y = other.words[i];
            if (x & y) != 0u64 {
                proof {
                    crate::bits::lemma_nonzero_has_bit(x & y);
                    let b = choose|b: u64| b < 64 && bit64(x & y, b);
                    crate::bits::lemma_bit_and(x, y);
                    let u = 64 * (i as int) + b as int;
                    assert(u / 64 == i as int && u % 64 == b as int) by (nonlinear_arith)
                        requires
                            u == 64 * (i as int) + b as int && 0 <= b < 64 && 0 <= i,
                    ;
                    assert(0 <= u < 0x10000) by (nonlinear_arith)
                        requires
                            u == 64 * (i as int) + b as int && 0 <= b < 64 && 0 <= (i as int)
                                < 1024,
                    ;
                    let v = u as u16;
                    assert(self.contains_spec(v) && other.contains_spec(v));
                }
                return true;
            }
            proof {
                assert forall|u: int|
                    64 * (i as int) <= u < 64 * (i as int) + 64 implies !(seq_bit(self.words@, u)
                    && seq_bit(other.words@, u)) by {
                    assert(u / 64 == i as int && 0 <= u % 64 < 64) by (nonlinear_arith)
                        requires
                            64 * (i as int) <= u < 64 * (i as int) + 64 && 0 <= i,
                    ;
                    crate::bits::lemma_bit_and(x, y);
                    crate::bits::lemma_zero_word((u % 64) as u64);
                }
                assert(64 * (i as int) + 64 == 64 * (i as int + 1));
            }
            i = i + 1;
        }
        false
    }
}

/// The set bit positions of a 1,024-word bit-array, in ascending order.
pub(crate) fn words_to_vec(words: &Vec<u64>) -> (r: Vec<u16>)
    requires
        words@.len() == 1024,
    ensures
        r@ == elems_upto(words@, 0x10000),
{
    let mut out: Vec<u16> = Vec::new();
    let mut n: usize = 0;
    while n < 0x10000
        invariant
            n <= 0x10000,
            words@.len() == 1024,
            out@ == elems_upto(words@, n as int),
        decreases 0x10000 - n,
    {
        let w: usize = n / 64;
        let b: u64 = (n as u64) % 64;
        proof {
            assert(w as int == n as int / 64);
            assert(b as int == n as int % 64);
        }
        if ((words[w] >> b) & 1u64) == 1u64 {
            out.push(n as u16);
        }
        n = n + 1;
    }
    out
}

/// An ordered cursor over the set bits of a word vector, captured at
/// creation.
pub struct BitmapIterator {
    pub elems: Vec<u16>,
    pub pos: usize,
}

impl BitmapIterator {
    /// The positions the cursor has not yet yielded.
    pub open spec fn remaining(&self) -> Seq<u16> {
        self.elems@.skip(self.pos as int)
    }

    pub open spec fn wf(&self) -> bool {
        self.pos <= self.elems@.len()
    }

    pub fn new(words: &Vec<u64>) -> (r: BitmapIterator)
        requires
            words@.len() == 1024,
        ensures
            r.wf(),
            r.remaining() == elems_upto(words@, 0x10000),
    {
        let r = BitmapIterator { elems: words_to_vec(words), pos: 0 };
        proof {
            assert(r.elems@.skip(0) =~= r.elems@);
        }
        r
    }

    /// The next set position in ascending order, if any.
    pub fn next(&mut self) -> (r: Option<u16>)
        requires
            old(self).wf(),
        ensures
            final(self).wf(),
            r == if old(self).remaining().len() == 0 {
                Option::<u16>::None
            } else {
                Option::<u16>::Some(old(self).remaining()[0])
            },
            final(self).remaining() == if old(self).remaining().len() == 0 {
                old(self).remaining()
            } else {
                old(self).remaining().skip(1)
            },
    {
        if self.pos < self.elems.len() {
            let v = self.elems[self.pos];
            let ghost p = self.pos as int;
            self.pos = self.pos + 1;
            proof {
                assert(self.elems@.skip(p + 1) =~= self.elems@.skip(p).skip(1));
                assert(self.elems@.skip(p)[0] == self.elems@[p]);
            }
            Some(v)
        } else {
            None
        }
    }
}

} // verus!
