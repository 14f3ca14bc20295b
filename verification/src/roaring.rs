//! The bitmap itself: an ordered index of containers keyed by the high 16
//! bits of each element, plus a cached total cardinality.
//!
//! The model is `all_elems`: the concatenation, in key order, of every
//! container's elements composed back into 32-bit values. Well-formedness
//! says the keys are strictly ascending, every container is well-formed and
//! non-empty, and the cached total equals the model's length — so the model
//! is a strictly ascending sequence and the cache never lies.

use vstd::prelude::*;
use crate::container::Container;
use crate::array::ArrayContainer;
use crate::seqs::{
    sorted32, count_le32, count_le16, lemma_push_contains, lemma_sorted32_concat,
    lemma_sorted32_count_le,
};

verus! {

/// The 32-bit element formed from a key and a low half.
pub open spec fn value_of(key: u16, low: u16) -> u32 {
    (key as int * 0x10000 + low as int) as u32
}

/// The high 16 bits of an element, as an integer.
pub open spec fn hi_of(n: u32) -> int {
    n as int / 0x10000
}

/// The low 16 bits of an element.
pub open spec fn lo_of(n: u32) -> u16 {
    (n as int % 0x10000) as u16
}

pub proof fn lemma_split(key: u16, low: u16)
    ensures
        value_of(key, low) as int == key as int * 0x10000 + low as int,
        hi_of(value_of(key, low)) == key as int,
        lo_of(value_of(key, low)) == low,
{
    let k = key as int;
    let l = low as int;
    assert(0 <= k * 0x10000 + l < 0x100000000) by (nonlinear_arith)
        requires
            0 <= k <= 0xffff && 0 <= l <= 0xffff,
    ;
    assert((k * 0x10000 + l) / 0x10000 == k && (k * 0x10000 + l) % 0x10000 == l)
        by (nonlinear_arith)
        requires
            0 <= k && 0 <= l < 0x10000,
    ;
}

pub proof fn lemma_compose(n: u32)
    ensures
        0 <= hi_of(n) < 0x10000,
        value_of(hi_of(n) as u16, lo_of(n)) == n,
{
    vstd::arithmetic::div_mod::lemma_fundamental_div_mod(n as int, 0x10000);
    lemma_split(hi_of(n) as u16, lo_of(n));
}

/// Elements order first by key, then by low half.
pub proof fn lemma_value_order(k1: u16, l1: u16, k2: u16, l2: u16)
    ensures
        (value_of(k1, l1) < value_of(k2, l2)) <==> (k1 < k2 || (k1 == k2 && l1 < l2)),
        (value_of(k1, l1) == value_of(k2, l2)) <==> (k1 == k2 && l1 == l2),
{
    lemma_split(k1, l1);
    lemma_split(k2, l2);
    assert(((k1 as int) * 0x10000 + (l1 as int) < (k2 as int) * 0x10000 + (l2 as int)) <==> (k1
        < k2 || (k1 == k2 && l1 < l2))) by (nonlinear_arith)
        requires
            0 <= k1 as int <= 0xffff && 0 <= l1 as int <= 0xffff && 0 <= k2 as int <= 0xffff && 0
                <= l2 as int <= 0xffff,
    ;
}

/// The elements contributed by one index entry.
pub open spec fn entry_elems(e: (u16, Container)) -> Seq<u32> {
    e.1.elems().map(|idx: int, low: u16| value_of(e.0, low))
}

/// All elements of an entry sequence, in entry order.
pub open spec fn all_elems(es: Seq<(u16, Container)>) -> Seq<u32>
    decreases es.len(),
{
    if es.len() == 0 {
        Seq::empty()
    } else {
        entry_elems(es[0]) + all_elems(es.skip(1))
    }
}

/// Entry `i` accounts for element `n`.
pub open spec fn index_has(es: Seq<(u16, Container)>, i: int, n: u32) -> bool {
    es[i].0 as int == hi_of(n) && es[i].1.elems().contains(lo_of(n))
}

/// Some entry accounts for element `n`.
pub open spec fn entries_contain(es: Seq<(u16, Container)>, n: u32) -> bool {
    exists|i: int| 0 <= i < es.len() && index_has(es, i, n)
}

/// Some entry below `k` accounts for element `n`.
pub open spec fn prefix_contains(es: Seq<(u16, Container)>, k: int, n: u32) -> bool {
    exists|i: int| 0 <= i < k && i < es.len() && index_has(es, i, n)
}

/// Well-formed index: strictly ascending keys, and each container
/// well-formed and non-empty.
pub open spec fn entries_wf(es: Seq<(u16, Container)>) -> bool {
    &&& forall|i: int|
        0 <= i < es.len() ==> (#[trigger] es[i]).1.wf() && es[i].1.elems().len() > 0
    &&& forall|i: int, j: int| 0 <= i < j < es.len() ==> (#[trigger] es[i]).0 < (#[trigger] es[j]).0
}

/// Shape of one entry's contribution: same length as the container, each
/// element composed from the entry key, membership by key and low half.
pub proof fn lemma_entry_elems(e: (u16, Container))
    ensures
        entry_elems(e).len() == e.1.elems().len(),
        forall|k: int|
            0 <= k < entry_elems(e).len() ==> #[trigger] entry_elems(e)[k] == value_of(
                e.0,
                e.1.elems()[k],
            ),
        forall|n: u32|
            #[trigger] entry_elems(e).contains(n) == (e.0 as int == hi_of(n)
                && e.1.elems().contains(lo_of(n))),
{
    assert forall|n: u32|
        #[trigger] entry_elems(e).contains(n) == (e.0 as int == hi_of(n) && e.1.elems().contains(
            lo_of(n),
        )) by {
        if entry_elems(e).contains(n) {
            let k = choose|k: int| 0 <= k < entry_elems(e).len() && entry_elems(e)[k] == n;
            lemma_split(e.0, e.1.elems()[k]);
            assert(e.1.elems().contains(lo_of(n))) by {
                assert(e.1.elems()[k] == lo_of(n));
            }
        }
        if e.0 as int == hi_of(n) && e.1.elems().contains(lo_of(n)) {
            let k = choose|k: int| 0 <= k < e.1.elems().len() && e.1.elems()[k] == lo_of(n);
            lemma_compose(n);
            assert(entry_elems(e)[k] == value_of(e.0, lo_of(n)));
            assert(entry_elems(e).contains(n)) by {
                assert(entry_elems(e)[k] == n);
            }
        }
    }
}

/// A sorted container yields a sorted contribution.
pub proof fn lemma_entry_elems_sorted(e: (u16, Container))
    requires
        e.1.wf(),
    ensures
        sorted32(entry_elems(e)),
{
    e.1.lemma_elems();
    lemma_entry_elems(e);
    assert forall|i: int, j: int|
        0 <= i < j < entry_elems(e).len() implies entry_elems(e)[i] < entry_elems(e)[j] by {
        lemma_value_order(e.0, e.1.elems()[i], e.0, e.1.elems()[j]);
    }
}

/// `all_elems` distributes over concatenation.
pub proof fn lemma_all_elems_concat(es1: Seq<(u16, Container)>, es2: Seq<(u16, Container)>)
    ensures
        all_elems(es1 + es2) == all_elems(es1) + all_elems(es2),
    decreases es1.len(),
{
    if es1.len() == 0 {
        assert(es1 + es2 =~= es2);
        assert(all_elems(es1) + all_elems(es2) =~= all_elems(es2));
    } else {
        assert((es1 + es2)[0] == es1[0]);
        assert((es1 + es2).skip(1) =~= es1.skip(1) + es2);
        lemma_all_elems_concat(es1.skip(1), es2);
        assert(entry_elems(es1[0]) + (all_elems(es1.skip(1)) + all_elems(es2)) =~= (entry_elems(
            es1[0],
        ) + all_elems(es1.skip(1))) + all_elems(es2));
        assert(all_elems(es1 + es2) == entry_elems((es1 + es2)[0]) + all_elems((es1 + es2).skip(1)));
    }
}

/// Appending one entry appends its contribution.
pub proof fn lemma_all_elems_push(es: Seq<(u16, Container)>, e: (u16, Container))
    ensures
        all_elems(es.push(e)) == all_elems(es) + entry_elems(e),
{
    let single = seq![e];
    assert(es.push(e) =~= es + single);
    lemma_all_elems_concat(es, single);
    assert(single.skip(1) =~= Seq::<(u16, Container)>::empty());
    assert(all_elems(single) == entry_elems(single[0]) + all_elems(single.skip(1)));
    assert(all_elems(single.skip(1)) == Seq::<u32>::empty());
    assert(single[0] == e);
    assert(entry_elems(e) + Seq::<u32>::empty() =~= entry_elems(e));
}

/// The three-way split of an entry sequence around index `i`.
pub proof fn lemma_all_elems_split(es: Seq<(u16, Container)>, i: int)
    requires
        0 <= i < es.len(),
    ensures
        all_elems(es) == all_elems(es.take(i)) + entry_elems(es[i]) + all_elems(es.skip(i + 1)),
{
    let single = seq![es[i]];
    assert(es =~= es.take(i) + single + es.skip(i + 1));
    lemma_all_elems_concat(es.take(i) + single, es.skip(i + 1));
    lemma_all_elems_concat(es.take(i), single);
    assert(single.skip(1) =~= Seq::<(u16, Container)>::empty());
    assert(all_elems(single) == entry_elems(single[0]) + all_elems(single.skip(1)));
    assert(all_elems(single.skip(1)) == Seq::<u32>::empty());
    assert(single[0] == es[i]);
    assert(entry_elems(es[i]) + Seq::<u32>::empty() =~= entry_elems(es[i]));
    assert(all_elems(es) == all_elems((es.take(i) + single) + es.skip(i + 1)));
}

/// Membership in the model is accounting by some entry.
pub proof fn lemma_all_elems_membership(es: Seq<(u16, Container)>)
    ensures
        forall|n: u32| #[trigger] all_elems(es).contains(n) == entries_contain(es, n),
    decreases es.len(),
{
    if es.len() > 0 {
        lemma_all_elems_membership(es.skip(1));
        lemma_entry_elems(es[0]);
        assert forall|n: u32| #[trigger] all_elems(es).contains(n) == entries_contain(es, n) by {
            assert(all_elems(es) == entry_elems(es[0]) + all_elems(es.skip(1)));
            if all_elems(es).contains(n) {
                let k = choose|k: int| 0 <= k < all_elems(es).len() && all_elems(es)[k] == n;
                if k < entry_elems(es[0]).len() {
                    assert(entry_elems(es[0]).contains(n)) by {
                        assert(entry_elems(es[0])[k] == n);
                    }
                    assert(index_has(es, 0, n));
                } else {
                    let k2 = k - entry_elems(es[0]).len();
                    assert(all_elems(es.skip(1)).contains(n)) by {
                        assert(all_elems(es.skip(1))[k2] == n);
                    }
                    let i = choose|i: int|
                        0 <= i < es.skip(1).len() && index_has(es.skip(1), i, n);
                    assert(es.skip(1)[i] == es[i + 1]);
                    assert(index_has(es, i + 1, n));
                }
            }
            if entries_contain(es, n) {
                let i = choose|i: int| 0 <= i < es.len() && index_has(es, i, n);
                if i == 0 {
                    assert(entry_elems(es[0]).contains(n));
                    let k = choose|k: int|
                        0 <= k < entry_elems(es[0]).len() && entry_elems(es[0])[k] == n;
                    assert(all_elems(es)[k] == n);
                    assert(all_elems(es).contains(n)) by {
                        assert(all_elems(es)[k] == n);
                    }
                } else {
                    assert(es.skip(1)[i - 1] == es[i]);
                    assert(index_has(es.skip(1), i - 1, n));
                    assert(all_elems(es.skip(1)).contains(n));
                    let k = choose|k: int|
                        0 <= k < all_elems(es.skip(1)).len() && all_elems(es.skip(1))[k] == n;
                    assert(all_elems(es)[entry_elems(es[0]).len() + k] == n);
                    assert(all_elems(es).contains(n)) by {
                        assert(all_elems(es)[entry_elems(es[0]).len() + k] == n);
                    }
                }
            }
        }
    }
}

/// A well-formed index yields a strictly ascending, bounded model.
pub proof fn lemma_all_elems_sorted(es: Seq<(u16, Container)>)
    requires
        entries_wf(es),
    ensures
        sorted32(all_elems(es)),
        all_elems(es).len() <= es.len() * 0x10000,
    decreases es.len(),
{
    if es.len() > 0 {
        assert(entries_wf(es.skip(1))) by {
            assert forall|i: int|
                0 <= i < es.skip(1).len() implies (#[trigger] es.skip(1)[i]).1.wf() && es.skip(
                1,
            )[i].1.elems().len() > 0 by {
                assert(es.skip(1)[i] == es[i + 1]);
            }
            assert forall|i: int, j: int|
                0 <= i < j < es.skip(1).len() implies (#[trigger] es.skip(1)[i]).0 < (
            #[trigger] es.skip(1)[j]).0 by {
                assert(es.skip(1)[i] == es[i + 1]);
                assert(es.skip(1)[j] == es[j + 1]);
            }
        }
        lemma_all_elems_sorted(es.skip(1));
        lemma_entry_elems_sorted(es[0]);
        lemma_entry_elems(es[0]);
        lemma_all_elems_membership(es.skip(1));
        let head = entry_elems(es[0]);
        let rest = all_elems(es.skip(1));
        assert forall|i: int, j: int|
            0 <= i < head.len() && 0 <= j < rest.len() implies head[i] < rest[j] by {
            let x = head[i];
            let y = rest[j];
            assert(head.contains(x)) by {
                assert(head[i] == x);
            }
            assert(rest.contains(y)) by {
                assert(rest[j] == y);
            }
            let t = choose|t: int| 0 <= t < es.skip(1).len() && index_has(es.skip(1), t, y);
            assert(es.skip(1)[t] == es[t + 1]);
            assert(es[0].0 < es[t + 1].0);
            lemma_compose(x);
            lemma_compose(y);
            lemma_value_order(hi_of(x) as u16, lo_of(x), hi_of(y) as u16, lo_of(y));
        }
        lemma_sorted32_concat(head, rest);
        es[0].1.lemma_elems();
        assert(all_elems(es).len() <= 0x10000 + es.skip(1).len() * 0x10000);
        assert(0x10000 + es.skip(1).len() * 0x10000 == es.len() * 0x10000) by (nonlinear_arith)
            requires
                es.skip(1).len() == es.len() - 1 && es.len() >= 1,
        ;
    }
}

/// A well-formed index has at most 65,536 entries.
pub proof fn lemma_entries_len(es: Seq<(u16, Container)>)
    requires
        entries_wf(es),
    ensures
        es.len() <= 0x10000,
{
    if es.len() > 0x10000 {
        lemma_entries_key_lb(es, 0x10000);
    }
}

proof fn lemma_entries_key_lb(es: Seq<(u16, Container)>, j: int)
    requires
        entries_wf(es),
        0 <= j < es.len(),
    ensures
        es[j].0 >= es[0].0 + j,
    decreases j,
{
    if j > 0 {
        lemma_entries_key_lb(es, j - 1);
        assert(es[j - 1].0 < es[j].0);
    }
}

pub struct RoaringBitmap {
    pub entries: Vec<(u16, Container)>,
    pub count: u64,
}

/// Splits an element into its key and low half.
fn split_into_key_value(number: u32) -> (r: (u16, u16))
    ensures
        r.0 as int == hi_of(number),
        r.1 == lo_of(number),
        number == value_of(r.0, r.1),
{
    let key = (number >> 16) as u16;
    let low = (number & 0xffff) as u16;
    proof {
        assert(number >> 16 == number / 0x10000 && (number & 0xffff) == number % 0x10000)
            by (bit_vector);
        lemma_compose(number);
    }
    (key, low)
}

/// Composes an element from its key and low half.
fn compose_value(key: u16, low: u16) -> (r: u32)
    ensures
        r == value_of(key, low),
{
    let k = key as u32;
    let l = low as u32;
    let r = (k << 16) | l;
    proof {
        assert((k << 16) | l == k * 0x10000 + l) by (bit_vector)
            requires
                k < 0x10000 && l < 0x10000,
        ;
        lemma_split(key, low);
    }
    r
}

impl RoaringBitmap {
    /// The set, as the ascending sequence of its elements.
    pub open spec fn elems(&self) -> Seq<u32> {
        all_elems(self.entries@)
    }

    pub open spec fn wf(&self) -> bool {
        entries_wf(self.entries@) && self.count == self.elems().len()
    }

    pub open spec fn contains_spec(&self, n: u32) -> bool {
        self.elems().contains(n)
    }

    /// The model of a well-formed bitmap is strictly ascending.
    pub proof fn lemma_elems(&self)
        requires
            self.wf(),
        ensures
            sorted32(self.elems()),
            self.elems().len() <= 0x100000000,
            forall|n: u32| #[trigger] self.contains_spec(n) == entries_contain(self.entries@, n),
    {
        lemma_all_elems_sorted(self.entries@);
        lemma_all_elems_membership(self.entries@);
        lemma_entries_len(self.entries@);
        assert(self.entries@.len() * 0x10000 <= 0x10000 * 0x10000) by (nonlinear_arith)
            requires
                self.entries@.len() <= 0x10000,
        ;
    }

    pub fn new() -> (r: RoaringBitmap)
        ensures
            r.wf(),
            r.elems() == Seq::<u32>::empty(),
            forall|n: u32| !r.contains_spec(n),
    {
        let r = RoaringBitmap { entries: Vec::new(), count: 0 };
        proof {
            assert(r.elems() =~= Seq::<u32>::empty());
        }
        r
    }

    /// Number of elements in the set.
    pub fn cardinality(&self) -> (r: u64)
        requires
            self.wf(),
        ensures
            r == self.elems().len(),
    {
        self.count
    }

    /// Index of the first entry whose key is `key` or larger.
    fn find_key(&self, key: u16) -> (idx: usize)
        requires
            self.wf(),
        ensures
            idx <= self.entries@.len(),
            forall|i: int| 0 <= i < idx ==> (#[trigger] self.entries@[i]).0 < key,
            forall|i: int| idx <= i < self.entries@.len() ==> (#[trigger] self.entries@[i]).0 >= key,
    {
        let mut lo: usize = 0;
        let mut hi: usize = self.entries.len();
        while lo < hi
            invariant
                lo <= hi <= self.entries@.len(),
                entries_wf(self.entries@),
                forall|i: int| 0 <= i < lo ==> (#[trigger] self.entries@[i]).0 < key,
                forall|i: int|
                    hi <= i < self.entries@.len() ==> (#[trigger] self.entries@[i]).0 >= key,
            decreases hi - lo,
        {
            let mid: usize = lo + (hi - lo) / 2;
            if self.entries[mid].0 < key {
                lo = mid + 1;
            } else {
                hi = mid;
            }
        }
        lo
    }

    /// Whether the set holds `number`.
    pub fn contains(&self, number: u32) -> (r: bool)
        requires
            self.wf(),
        ensures
            r == self.contains_spec(number),
    {
        let (key, low) = split_into_key_value(number);
        let idx = self.find_key(key);
        proof {
            self.lemma_elems();
        }
        if idx < self.entries.len() && self.entries[idx].0 == key {
            let r = self.entries[idx].1.contains(low);
            proof {
                if r {
                    assert(index_has(self.entries@, idx as int, number));
                } else {
                    if entries_contain(self.entries@, number) {
                        let i = choose|i: int|
                            0 <= i < self.entries@.len() && index_has(self.entries@, i, number);
                        if i < idx {
                            assert(self.entries@[i].0 < key);
                        }
                        if i > idx {
                            assert(self.entries@[idx as int].0 < self.entries@[i].0);
                        }
                        assert(i == idx);
                    }
                }
            }
            r
        } else {
            proof {
                if entries_contain(self.entries@, number) {
                    let i = choose|i: int|
                        0 <= i < self.entries@.len() && index_has(self.entries@, i, number);
                    if i < idx {
                        assert(self.entries@[i].0 < key);
                    } else {
                        assert(self.entries@[i].0 >= key);
                        assert(self.entries@[i].0 != key);
                    }
                }
            }
            false
        }
    }
}

/// Counting entries that do not exceed a bound commutes with composing a key
/// onto paired low halves.
pub proof fn lemma_paired_count_le(s32: Seq<u32>, s16: Seq<u16>, key: u16, lo: u16)
    requires
        s32.len() == s16.len(),
        forall|k: int| 0 <= k < s16.len() ==> s32[k] == value_of(key, s16[k]),
    ensures
        count_le32(s32, value_of(key, lo)) == count_le16(s16, lo),
    decreases s16.len(),
{
    if s16.len() > 0 {
        lemma_paired_count_le(s32.drop_last(), s16.drop_last(), key, lo);
        lemma_value_order(key, s16.last(), key, lo);
        lemma_split(key, s16.last());
        lemma_split(key, lo);
        assert(s32.last() == value_of(key, s16.last()));
    }
}

pub proof fn lemma_count_le32_bounds(s: Seq<u32>, v: u32)
    ensures
        0 <= count_le32(s, v) <= s.len(),
    decreases s.len(),
{
    if s.len() > 0 {
        lemma_count_le32_bounds(s.drop_last(), v);
    }
}

/// A suffix of a well-formed index is a well-formed index.
pub proof fn lemma_entries_wf_skip(es: Seq<(u16, Container)>, k: int)
    requires
        entries_wf(es),
        0 <= k <= es.len(),
    ensures
        entries_wf(es.skip(k)),
{
    assert forall|i: int|
        0 <= i < es.skip(k).len() implies (#[trigger] es.skip(k)[i]).1.wf() && es.skip(
        k,
    )[i].1.elems().len() > 0 by {
        assert(es.skip(k)[i] == es[i + k]);
    }
    assert forall|i: int, j: int|
        0 <= i < j < es.skip(k).len() implies (#[trigger] es.skip(k)[i]).0 < (#[trigger] es.skip(
        k,
    )[j]).0 by {
        assert(es.skip(k)[i] == es[i + k]);
        assert(es.skip(k)[j] == es[j + k]);
    }
}

impl RoaringBitmap {
    /// Adds an element; reports whether the set grew.
    #[verifier::rlimit(60)]
    pub fn add(&mut self, number: u32) -> (added: bool)
        requires
            old(self).wf(),
        ensures
            final(self).wf(),
            added == !old(self).contains_spec(number),
            forall|n: u32|
                #[trigger] final(self).contains_spec(n) == (old(self).contains_spec(n) || n
                    == number),
            final(self).elems().len() == old(self).elems().len() + if added {
                1int
            } else {
                0int
            },
    {
        let (key, low) = split_into_key_value(number);
        let idx = self.find_key(key);
        let ghost es0 = self.entries@;
        proof {
            self.lemma_elems();
            lemma_all_elems_sorted(es0);
            lemma_entries_len(es0);
            assert(es0.len() * 0x10000 <= 0x100000000) by (nonlinear_arith)
                requires
                    es0.len() <= 0x10000,
            ;
        }
        if idx < self.entries.len() && self.entries[idx].0 == key {
            let (k, mut c) = self.entries.remove(idx);
            let ghost pre_c = c.elems();
            let added = c.add(low);
            let ghost new_c = c.elems();
            proof {
                assert forall|v: u16| new_c.contains(v) == (pre_c.contains(v) || v == low) by {
                    assert(c.contains_spec(v) == (pre_c.contains(v) || v == low));
                }
            }
            self.entries.insert(idx, (k, c));
            if added {
                self.count = self.count + 1;
            }
            proof {
                let es1 = self.entries@;
                assert(es1 =~= es0.update(idx as int, es1[idx as int]));
                assert(es1[idx as int].0 == key);
                assert(es1[idx as int].1.elems() == new_c);
                assert(es1.take(idx as int) =~= es0.take(idx as int));
                assert(es1.skip(idx as int + 1) =~= es0.skip(idx as int + 1));
                lemma_all_elems_split(es0, idx as int);
                lemma_all_elems_split(es1, idx as int);
                lemma_entry_elems(es0[idx as int]);
                lemma_entry_elems(es1[idx as int]);
                // Well-formedness: only the container at `idx` changed, and it
                // kept its key and stayed non-empty.
                assert(entries_wf(es1)) by {
                    assert forall|i: int|
                        0 <= i < es1.len() implies (#[trigger] es1[i]).1.wf()
                            && es1[i].1.elems().len() > 0 by {
                        if i != idx {
                            assert(es1[i] == es0[i]);
                        }
                    }
                    assert forall|i: int, j: int|
                        0 <= i < j < es1.len() implies (#[trigger] es1[i]).0 < (
                    #[trigger] es1[j]).0 by {
                        assert(es1[i].0 == es0[i].0);
                        assert(es1[j].0 == es0[j].0);
                    }
                }
                // Membership: the change is confined to the entry for `key`.
                lemma_all_elems_membership(es0);
                lemma_all_elems_membership(es1);
                lemma_compose(number);
                assert(index_has(es0, idx as int, number) == old(self).contains_spec(number)) by {
                    if entries_contain(es0, number) {
                        let i = choose|i: int|
                            0 <= i < es0.len() && index_has(es0, i, number);
                        if i < idx {
                            assert(es0[i].0 < key);
                        }
                        if i > idx {
                            assert(es0[idx as int].0 < es0[i].0);
                        }
                        assert(i == idx);
                    }
                }
                assert forall|n: u32|
                    #[trigger] all_elems(es1).contains(n) == (all_elems(es0).contains(n) || n
                        == number) by {
                    lemma_compose(n);
                    lemma_compose(number);
                    if entries_contain(es1, n) {
                        let i = choose|i: int| 0 <= i < es1.len() && index_has(es1, i, n);
                        if i != idx {
                            assert(es1[i] == es0[i]);
                            assert(index_has(es0, i, n));
                        } else {
                            if lo_of(n) == low && es1[i].0 as int == hi_of(n) {
                                lemma_value_order(key, low, hi_of(n) as u16, lo_of(n));
                                assert(n == number);
                            } else {
                                assert(index_has(es0, idx as int, n));
                            }
                        }
                    }
                    if entries_contain(es0, n) {
                        let i = choose|i: int| 0 <= i < es0.len() && index_has(es0, i, n);
                        if i != idx {
                            assert(es1[i] == es0[i]);
                            assert(index_has(es1, i, n));
                        } else {
                            assert(index_has(es1, idx as int, n));
                        }
                    }
                    if n == number {
                        assert(index_has(es1, idx as int, n));
                    }
                }
                // Length: only the entry at `idx` changed length.
                assert(all_elems(es1).len() == all_elems(es0).len() + if added {
                    1int
                } else {
                    0int
                });
            }
            added
        } else {
            proof {
                // No entry has this key.
                assert forall|i: int|
                    0 <= i < es0.len() implies (#[trigger] es0[i]).0 != key by {
                    if i < idx {
                        assert(es0[i].0 < key);
                    } else {
                        assert(es0[i].0 >= key);
                    }
                }
                lemma_all_elems_membership(es0);
                assert(!old(self).contains_spec(number));
            }
            let mut arr = ArrayContainer::new();
            arr.add(low);
            let c = Container::Array(arr);
            proof {
                assert(c.elems() =~= seq![low]);
                assert(c.wf());
            }
            self.entries.insert(idx, (key, c));
            self.count = self.count + 1;
            proof {
                let es1 = self.entries@;
                let e = es1[idx as int];
                assert(e.0 == key && e.1.elems() =~= seq![low]);
                assert(es1.take(idx as int) =~= es0.take(idx as int));
                assert(es1.skip(idx as int + 1) =~= es0.skip(idx as int));
                lemma_all_elems_split(es1, idx as int);
                lemma_entry_elems(e);
                assert(es0 =~= es0.take(idx as int) + es0.skip(idx as int));
                lemma_all_elems_concat(es0.take(idx as int), es0.skip(idx as int));
                assert(entries_wf(es1)) by {
                    assert forall|i: int|
                        0 <= i < es1.len() implies (#[trigger] es1[i]).1.wf()
                            && es1[i].1.elems().len() > 0 by {
                        if i < idx {
                            assert(es1[i] == es0[i]);
                        } else if i > idx {
                            assert(es1[i] == es0[i - 1]);
                        }
                    }
                    assert forall|i: int, j: int|
                        0 <= i < j < es1.len() implies (#[trigger] es1[i]).0 < (
                    #[trigger] es1[j]).0 by {
                        if j < idx {
                            assert(es1[i] == es0[i] && es1[j] == es0[j]);
                        } else if i > idx {
                            assert(es1[i] == es0[i - 1] && es1[j] == es0[j - 1]);
                        } else if i < idx && j == idx {
                            assert(es1[i] == es0[i]);
                            assert(es0[i].0 < key);
                        } else if i == idx && j > idx {
                            assert(es1[j] == es0[j - 1]);
                            assert(es0[j - 1].0 >= key);
                            assert(es0[j - 1].0 != key);
                        } else {
                            assert(es1[i] == es0[i]);
                            assert(es1[j] == es0[j - 1]);
                            assert(es0[i].0 < key);
                            assert(es0[j - 1].0 >= key);
                        }
                    }
                }
                lemma_all_elems_membership(es1);
                assert forall|n: u32|
                    #[trigger] all_elems(es1).contains(n) == (all_elems(es0).contains(n) || n
                        == number) by {
                    lemma_compose(n);
                    lemma_compose(number);
                    if entries_contain(es1, n) {
                        let i = choose|i: int| 0 <= i < es1.len() && index_has(es1, i, n);
                        if i < idx {
                            assert(es1[i] == es0[i]);
                            assert(index_has(es0, i, n));
                        } else if i > idx {
                            assert(es1[i] == es0[i - 1]);
                            assert(index_has(es0, i - 1, n));
                        } else {
                            assert(e.1.elems().contains(lo_of(n)));
                            assert(e.1.elems() =~= seq![low]);
                            let t = choose|t: int|
                                0 <= t < e.1.elems().len() && e.1.elems()[t] == lo_of(n);
                            assert(lo_of(n) == low);
                            lemma_value_order(key, low, hi_of(n) as u16, lo_of(n));
                            assert(n == number);
                        }
                    }
                    if entries_contain(es0, n) {
                        let i = choose|i: int| 0 <= i < es0.len() && index_has(es0, i, n);
                        if i < idx {
                            assert(index_has(es1, i, n));
                        } else {
                            assert(es1[i + 1] == es0[i]);
                            assert(index_has(es1, i + 1, n));
                        }
                    }
                    if n == number {
                        assert(e.1.elems()[0] == low);
                        assert(e.1.elems().contains(lo_of(n)));
                        assert(index_has(es1, idx as int, n));
                    }
                }
                assert(all_elems(es1).len() == all_elems(es0).len() + 1);
            }
            true
        }
    }

    /// Removes an element; an entry whose container empties is dropped.
    /// Reports whether the set shrank.
    #[verifier::rlimit(100)]
    #[verifier::spinoff_prover]
    pub fn remove(&mut self, number: u32) -> (removed: bool)
        requires
            old(self).wf(),
        ensures
            final(self).wf(),
            removed == old(self).contains_spec(number),
            forall|n: u32|
                #[trigger] final(self).contains_spec(n) == (old(self).contains_spec(n) && n
                    != number),
            old(self).elems().len() == final(self).elems().len() + if removed {
                1int
            } else {
                0int
            },
    {
        let (key, low) = split_into_key_value(number);
        let idx = self.find_key(key);
        let ghost es0 = self.entries@;
        proof {
            self.lemma_elems();
        }
        if idx < self.entries.len() && self.entries[idx].0 == key {
            let (k, mut c) = self.entries.remove(idx);
            let ghost pre_c = c.elems();
            let removed = c.remove(low);
            let ghost new_c = c.elems();
            proof {
                assert forall|v: u16| new_c.contains(v) == (pre_c.contains(v) && v != low) by {
                    assert(c.contains_spec(v) == (pre_c.contains(v) && v != low));
                }
            }
            let keep = !c.is_empty();
            if keep {
                self.entries.insert(idx, (k, c));
            }
            if removed {
                self.count = self.count - 1;
            }
            proof {
                let es1 = self.entries@;
                lemma_all_elems_split(es0, idx as int);
                lemma_entry_elems(es0[idx as int]);
                lemma_all_elems_membership(es0);
                lemma_compose(number);
                assert(index_has(es0, idx as int, number) == old(self).contains_spec(number)) by {
                    if entries_contain(es0, number) {
                        let i = choose|i: int|
                            0 <= i < es0.len() && index_has(es0, i, number);
                        if i < idx {
                            assert(es0[i].0 < key);
                        }
                        if i > idx {
                            assert(es0[idx as int].0 < es0[i].0);
                        }
                        assert(i == idx);
                    }
                }
                if keep {
                    assert(es1 =~= es0.update(idx as int, es1[idx as int]));
                    assert(es1[idx as int].0 == key);
                    assert(es1[idx as int].1.elems() == new_c);
                    assert(es1.take(idx as int) =~= es0.take(idx as int));
                    assert(es1.skip(idx as int + 1) =~= es0.skip(idx as int + 1));
                    lemma_all_elems_split(es1, idx as int);
                    lemma_entry_elems(es1[idx as int]);
                    assert(entries_wf(es1)) by {
                        assert forall|i: int|
                            0 <= i < es1.len() implies (#[trigger] es1[i]).1.wf()
                                && es1[i].1.elems().len() > 0 by {
                            if i != idx {
                                assert(es1[i] == es0[i]);
                            }
                        }
                        assert forall|i: int, j: int|
                            0 <= i < j < es1.len() implies (#[trigger] es1[i]).0 < (
                        #[trigger] es1[j]).0 by {
                            assert(es1[i].0 == es0[i].0);
                            assert(es1[j].0 == es0[j].0);
                        }
                    }
                    lemma_all_elems_membership(es1);
                    assert forall|n: u32|
                        #[trigger] all_elems(es1).contains(n) == (all_elems(es0).contains(n) && n
                            != number) by {
                        lemma_compose(n);
                        lemma_compose(number);
                        if entries_contain(es1, n) {
                            let i = choose|i: int| 0 <= i < es1.len() && index_has(es1, i, n);
                            if i != idx {
                                assert(es1[i] == es0[i]);
                                assert(index_has(es0, i, n));
                                assert(es0[i].0 != key);
                                lemma_value_order(key, low, hi_of(n) as u16, lo_of(n));
                            } else {
                                assert(index_has(es0, idx as int, n));
                                lemma_value_order(key, low, hi_of(n) as u16, lo_of(n));
                            }
                        }
                        if entries_contain(es0, n) && n != number {
                            let i = choose|i: int| 0 <= i < es0.len() && index_has(es0, i, n);
                            if i != idx {
                                assert(es1[i] == es0[i]);
                                assert(index_has(es1, i, n));
                            } else {
                                lemma_value_order(key, low, hi_of(n) as u16, lo_of(n));
                                assert(lo_of(n) != low || hi_of(n) != key as int);
                                assert(index_has(es1, idx as int, n));
                            }
                        }
                    }
                    assert(all_elems(es1).len() == all_elems(es0).len() - if removed {
                        1int
                    } else {
                        0int
                    });
                } else {
                    // The container emptied: the whole entry is gone.
                    assert(new_c.len() == 0);
                    assert(removed);
                    assert(pre_c.len() == 1);
                    assert(es1 =~= es0.remove(idx as int));
                    assert(es1.take(idx as int) =~= es0.take(idx as int));
                    assert(es1.skip(idx as int) =~= es0.skip(idx as int + 1));
                    assert(es1 =~= es1.take(idx as int) + es1.skip(idx as int));
                    lemma_all_elems_concat(es1.take(idx as int), es1.skip(idx as int));
                    assert(entries_wf(es1)) by {
                        assert forall|i: int|
                            0 <= i < es1.len() implies (#[trigger] es1[i]).1.wf()
                                && es1[i].1.elems().len() > 0 by {
                            if i < idx {
                                assert(es1[i] == es0[i]);
                            } else {
                                assert(es1[i] == es0[i + 1]);
                            }
                        }
                        assert forall|i: int, j: int|
                            0 <= i < j < es1.len() implies (#[trigger] es1[i]).0 < (
                        #[trigger] es1[j]).0 by {
                            let pi: int = if i < idx {
                                i
                            } else {
                                i + 1
                            };
                            let pj: int = if j < idx {
                                j
                            } else {
                                j + 1
                            };
                            assert(es1[i] == es0[pi]);
                            assert(es1[j] == es0[pj]);
                        }
                    }
                    lemma_all_elems_membership(es1);
                    // The dropped entry held exactly `number`.
                    assert(pre_c.contains(low));
                    assert forall|v: u16| pre_c.contains(v) implies v == low by {
                        if v != low {
                            assert(new_c.contains(v));
                        }
                    }
                    assert forall|n: u32|
                        #[trigger] all_elems(es1).contains(n) == (all_elems(es0).contains(n) && n
                            != number) by {
                        lemma_compose(n);
                        lemma_compose(number);
                        if entries_contain(es1, n) {
                            let i = choose|i: int| 0 <= i < es1.len() && index_has(es1, i, n);
                            let pi: int = if i < idx {
                                i
                            } else {
                                i + 1
                            };
                            assert(es1[i] == es0[pi]);
                            assert(index_has(es0, pi, n));
                            assert(es0[pi].0 != key || pi == idx as int);
                            if pi == idx {
                                assert(false);
                            }
                            lemma_value_order(key, low, hi_of(n) as u16, lo_of(n));
                        }
                        if entries_contain(es0, n) && n != number {
                            let i = choose|i: int| 0 <= i < es0.len() && index_has(es0, i, n);
                            if i < idx {
                                assert(es1[i] == es0[i]);
                                assert(index_has(es1, i, n));
                            } else if i > idx {
                                assert(es1[i - 1] == es0[i]);
                                assert(index_has(es1, i - 1, n));
                            } else {
                                assert(pre_c.contains(lo_of(n)));
                                assert(lo_of(n) == low);
                                lemma_value_order(key, low, hi_of(n) as u16, lo_of(n));
                                assert(false);
                            }
                        }
                    }
                    assert(all_elems(es1).len() == all_elems(es0).len() - 1);
                }
            }
            removed
        } else {
            proof {
                assert forall|i: int|
                    0 <= i < es0.len() implies (#[trigger] es0[i]).0 != key by {
                    if i < idx {
                        assert(es0[i].0 < key);
                    } else {
                        assert(es0[i].0 >= key);
                    }
                }
                lemma_all_elems_membership(es0);
                assert(!old(self).contains_spec(number));
            }
            false
        }
    }

    /// The least element.
    pub fn minimum(&self) -> (r: Option<u32>)
        requires
            self.wf(),
        ensures
            r == if self.elems().len() == 0 {
                Option::<u32>::None
            } else {
                Option::<u32>::Some(self.elems()[0])
            },
    {
        if self.entries.len() == 0 {
            return None;
        }
        let key = self.entries[0].0;
        let m = self.entries[0].1.minimum();
        proof {
            assert((self.entries@[0]).1.wf() && (self.entries@[0]).1.elems().len() > 0);
        }
        match m {
            Some(low) => {
                proof {
                    lemma_all_elems_split(self.entries@, 0);
                    lemma_entry_elems(self.entries@[0]);
                    assert(self.entries@.take(0) =~= Seq::<(u16, Container)>::empty());
                    assert(all_elems(self.entries@.take(0)) == Seq::<u32>::empty());
                    assert(self.elems()[0] == entry_elems(self.entries@[0])[0]);
                }
                Some(compose_value(key, low))
            },
            None => {
                proof {
                    assert(false);
                }
                None
            },
        }
    }

    /// The greatest element.
    pub fn maximum(&self) -> (r: Option<u32>)
        requires
            self.wf(),
        ensures
            r == if self.elems().len() == 0 {
                Option::<u32>::None
            } else {
                Option::<u32>::Some(self.elems().last())
            },
    {
        if self.entries.len() == 0 {
            return None;
        }
        let last = self.entries.len() - 1;
        let key = self.entries[last].0;
        let m = self.entries[last].1.maximum();
        proof {
            assert((self.entries@[last as int]).1.wf() && (self.entries@[last as int]).1.elems().len() > 0);
        }
        match m {
            Some(low) => {
                proof {
                    lemma_all_elems_split(self.entries@, last as int);
                    lemma_entry_elems(self.entries@[last as int]);
                    assert(self.entries@.skip(last as int + 1) =~= Seq::<(u16, Container)>::empty());
                    assert(all_elems(self.entries@.skip(last as int + 1)) == Seq::<u32>::empty());
                    let e = entry_elems(self.entries@[last as int]);
                    assert(self.elems().len() == all_elems(self.entries@.take(last as int)).len()
                        + e.len());
                    assert(self.elems().last() == e.last());
                }
                Some(compose_value(key, low))
            },
            None => {
                proof {
                    assert(false);
                }
                None
            },
        }
    }

    /// The element with `idx` smaller elements below it, if any: walk the
    /// entries in key order, discounting each container's cardinality.
    pub fn select(&self, idx: usize) -> (r: Option<u32>)
        requires
            self.wf(),
        ensures
            r == if (idx as int) < self.elems().len() {
                Option::<u32>::Some(self.elems()[idx as int])
            } else {
                Option::<u32>::None
            },
    {
        let mut t: usize = 0;
        let mut remaining: usize = idx;
        while t < self.entries.len()
            invariant
                t <= self.entries@.len(),
                self.wf(),
                all_elems(self.entries@.take(t as int)).len() <= idx,
                remaining == idx - all_elems(self.entries@.take(t as int)).len(),
            decreases self.entries@.len() - t,
        {
            proof {
                assert((self.entries@[t as int]).1.wf() && (self.entries@[t as int]).1.elems().len()
                    > 0);
            }
            let card = self.entries[t].1.cardinality();
            if remaining < card {
                let low_opt = self.entries[t].1.select(remaining);
                match low_opt {
                    Some(low) => {
                        proof {
                            lemma_all_elems_split(self.entries@, t as int);
                            lemma_entry_elems(self.entries@[t as int]);
                            let e = entry_elems(self.entries@[t as int]);
                            assert(self.elems()[idx as int] == e[remaining as int]);
                        }
                        return Some(compose_value(self.entries[t].0, low));
                    },
                    None => {
                        proof {
                            assert(false);
                        }
                        return None;
                    },
                }
            }
            remaining = remaining - card;
            let ghost t0 = t as int;
            t = t + 1;
            proof {
                assert(self.entries@.take(t0 + 1) =~= self.entries@.take(t0).push(
                    self.entries@[t0],
                ));
                lemma_all_elems_push(self.entries@.take(t0), self.entries@[t0]);
                lemma_entry_elems(self.entries@[t0]);
            }
        }
        proof {
            assert(self.entries@.take(self.entries@.len() as int) =~= self.entries@);
        }
        None
    }

    /// Number of elements that do not exceed `value`: whole containers below
    /// the target key are counted by their cardinality, the container at the
    /// key by its own rank.
    pub fn rank(&self, value: u32) -> (r: u64)
        requires
            self.wf(),
        ensures
            r == count_le32(self.elems(), value),
    {
        let (tk, lo) = split_into_key_value(value);
        let mut acc: u64 = 0;
        let mut t: usize = 0;
        proof {
            self.lemma_elems();
            lemma_entries_len(self.entries@);
        }
        while t < self.entries.len() && self.entries[t].0 < tk
            invariant
                t <= self.entries@.len(),
                self.entries@.len() <= 0x10000,
                self.wf(),
                value == value_of(tk, lo),
                tk as int == hi_of(value),
                lo == lo_of(value),
                acc == count_le32(all_elems(self.entries@.take(t as int)), value),
                acc <= all_elems(self.entries@.take(t as int)).len(),
                all_elems(self.entries@.take(t as int)).len() <= t * 0x10000,
                t <= 0x10000,
            decreases self.entries@.len() - t,
        {
            proof {
                assert((self.entries@[t as int]).1.wf() && (self.entries@[t as int]).1.elems().len()
                    > 0);
            }
            let card = self.entries[t].1.cardinality();
            let ghost t0 = t as int;
            let ghost e = entry_elems(self.entries@[t0]);
            proof {
                assert(self.entries@.take(t0 + 1) =~= self.entries@.take(t0).push(
                    self.entries@[t0],
                ));
                lemma_all_elems_push(self.entries@.take(t0), self.entries@[t0]);
                lemma_entry_elems(self.entries@[t0]);
                crate::seqs::lemma_count_le32_concat(all_elems(self.entries@.take(t0)), e, value);
                lemma_entry_elems_sorted(self.entries@[t0]);
                // Every element of this entry is below `value`.
                assert forall|k: int| 0 <= k < e.len() implies e[k] <= value by {
                    lemma_value_order(
                        self.entries@[t0].0,
                        self.entries@[t0].1.elems()[k],
                        tk,
                        lo,
                    );
                }
                lemma_sorted32_count_le(e, value, e.len() as int);
                (self.entries@[t0]).1.lemma_elems();
                lemma_count_le32_bounds(all_elems(self.entries@.take(t0 + 1)), value);
                assert((t0 + 1) * 0x10000 == t0 * 0x10000 + 0x10000) by (nonlinear_arith);
            }
            acc = acc + card as u64;
            t = t + 1;
        }
        let ghost tfin = t as int;
        let ghost done = all_elems(self.entries@.take(tfin));
        if t < self.entries.len() && self.entries[t].0 == tk {
            proof {
                assert((self.entries@[tfin]).1.wf() && (self.entries@[tfin]).1.elems().len() > 0);
            }
            let cr = self.entries[t].1.rank(lo);
            proof {
                lemma_all_elems_split(self.entries@, tfin);
                let e = entry_elems(self.entries@[tfin]);
                let rest = all_elems(self.entries@.skip(tfin + 1));
                crate::seqs::lemma_count_le32_concat(done + e, rest, value);
                crate::seqs::lemma_count_le32_concat(done, e, value);
                lemma_entry_elems(self.entries@[tfin]);
                lemma_paired_count_le(e, self.entries@[tfin].1.elems(), tk, lo);
                // Entries past the key hold only larger values.
                lemma_entries_wf_skip(self.entries@, tfin + 1);
                lemma_all_elems_sorted(self.entries@.skip(tfin + 1));
                lemma_all_elems_membership(self.entries@.skip(tfin + 1));
                assert forall|k: int| 0 <= k < rest.len() implies rest[k] > value by {
                    assert(rest.contains(rest[k])) by {
                        assert(rest[k] == rest[k]);
                    }
                    let i = choose|i: int|
                        0 <= i < self.entries@.skip(tfin + 1).len() && #[trigger] index_has(
                            self.entries@.skip(tfin + 1),
                            i,
                            rest[k],
                        );
                    assert(self.entries@.skip(tfin + 1)[i] == self.entries@[i + tfin + 1]);
                    assert(self.entries@[tfin].0 < self.entries@[i + tfin + 1].0);
                    lemma_compose(rest[k]);
                    lemma_value_order(hi_of(rest[k]) as u16, lo_of(rest[k]), tk, lo);
                }
                lemma_sorted32_count_le(rest, value, 0);
                lemma_count_le32_bounds(self.elems(), value);
                crate::seqs::lemma_count_le16_bounds(self.entries@[tfin].1.elems(), lo);
                (self.entries@[tfin]).1.lemma_elems();
            }
            acc = acc + cr as u64;
            proof {
                assert(acc == count_le32(self.elems(), value));
            }
            acc
        } else {
            proof {
                assert(self.entries@ =~= self.entries@.take(tfin) + self.entries@.skip(tfin));
                lemma_all_elems_concat(self.entries@.take(tfin), self.entries@.skip(tfin));
                let rest = all_elems(self.entries@.skip(tfin));
                crate::seqs::lemma_count_le32_concat(done, rest, value);
                lemma_entries_wf_skip(self.entries@, tfin);
                lemma_all_elems_sorted(self.entries@.skip(tfin));
                lemma_all_elems_membership(self.entries@.skip(tfin));
                assert forall|k: int| 0 <= k < rest.len() implies rest[k] > value by {
                    assert(rest.contains(rest[k])) by {
                        assert(rest[k] == rest[k]);
                    }
                    let i = choose|i: int|
                        0 <= i < self.entries@.skip(tfin).len() && #[trigger] index_has(
                            self.entries@.skip(tfin),
                            i,
                            rest[k],
                        );
                    assert(self.entries@.skip(tfin)[i] == self.entries@[i + tfin]);
                    assert(self.entries@[i + tfin].0 >= tk);
                    assert(self.entries@[i + tfin].0 != tk);
                    lemma_compose(rest[k]);
                    lemma_value_order(hi_of(rest[k]) as u16, lo_of(rest[k]), tk, lo);
                }
                lemma_sorted32_count_le(rest, value, 0);
            }
            acc
        }
    }

    /// All elements, in ascending order.
    pub fn to_array(&self) -> (r: Vec<u32>)
        requires
            self.wf(),
        ensures
            r@ == self.elems(),
            sorted32(r@),
    {
        proof {
            self.lemma_elems();
        }
        let mut out: Vec<u32> = Vec::new();
        let mut t: usize = 0;
        while t < self.entries.len()
            invariant
                t <= self.entries@.len(),
                self.wf(),
                out@ == all_elems(self.entries@.take(t as int)),
            decreases self.entries@.len() - t,
        {
            proof {
                assert((self.entries@[t as int]).1.wf() && (self.entries@[t as int]).1.elems().len()
                    > 0);
            }
            let key = self.entries[t].0;
            let lows = self.entries[t].1.to_vec();
            let ghost t0 = t as int;
            let ghost e = entry_elems(self.entries@[t0]);
            proof {
                lemma_entry_elems(self.entries@[t0]);
            }
            let mut x: usize = 0;
            while x < lows.len()
                invariant
                    x <= lows@.len(),
                    self.wf(),
                    t0 < self.entries@.len(),
                    key == self.entries@[t0].0,
                    lows@ == self.entries@[t0].1.elems(),
                    e == entry_elems(self.entries@[t0]),
                    e.len() == lows@.len(),
                    forall|k: int| 0 <= k < e.len() ==> #[trigger] e[k] == value_of(key, lows@[k]),
                    out@ == all_elems(self.entries@.take(t0)) + e.take(x as int),
                decreases lows@.len() - x,
            {
                let v = compose_value(key, lows[x]);
                out.push(v);
                proof {
                    assert(e.take(x as int + 1) =~= e.take(x as int).push(e[x as int]));
                    assert(out@ =~= all_elems(self.entries@.take(t0)) + e.take(x as int + 1));
                }
                x = x + 1;
            }
            proof {
                assert(e.take(e.len() as int) =~= e);
                assert(self.entries@.take(t0 + 1) =~= self.entries@.take(t0).push(
                    self.entries@[t0],
                ));
                lemma_all_elems_push(self.entries@.take(t0), self.entries@[t0]);
            }
            t = t + 1;
        }
        proof {
            assert(self.entries@.take(self.entries@.len() as int) =~= self.entries@);
        }
        out
    }

    /// An empty bitmap grown from a half-open range of elements.
    pub fn from_range(start: u32, end: u32) -> (r: RoaringBitmap)
        ensures
            r.wf(),
            forall|n: u32| #[trigger] r.contains_spec(n) == (start <= n < end),
            start < end ==> r.elems().len() == end - start,
            start >= end ==> r.elems().len() == 0,
    {
        let mut r = RoaringBitmap::new();
        let mut v = start;
        while v < end
            invariant
                r.wf(),
                start <= v,
                v <= end || v == start,
                r.elems().len() == v - start,
                forall|n: u32| #[trigger] r.contains_spec(n) == (start <= n < v),
            decreases end - v,
        {
            r.add(v);
            v = v + 1;
        }
        r
    }

    /// An empty bitmap grown from a list of elements.
    pub fn from_iter(values: &Vec<u32>) -> (r: RoaringBitmap)
        ensures
            r.wf(),
            forall|n: u32| #[trigger] r.contains_spec(n) == values@.contains(n),
    {
        let mut r = RoaringBitmap::new();
        let mut i: usize = 0;
        while i < values.len()
            invariant
                i <= values@.len(),
                r.wf(),
                forall|n: u32| #[trigger] r.contains_spec(n) == values@.take(i as int).contains(n),
            decreases values@.len() - i,
        {
            let x = values[i];
            r.add(x);
            proof {
                assert(values@.take(i + 1) =~= values@.take(i as int).push(values@[i as int]));
                assert forall|n: u32|
                    #[trigger] r.contains_spec(n) == values@.take(i + 1).contains(n) by {
                    lemma_push_contains(values@.take(i as int), x, n);
                }
            }
            i = i + 1;
        }
        proof {
            assert(values@.take(values@.len() as int) =~= values@);
        }
        r
    }

    /// An ordered cursor over the elements.
    pub fn iter(&self) -> (r: RoaringBitmapIter)
        requires
            self.wf(),
        ensures
            r.wf(),
            r.remaining() == self.elems(),
    {
        RoaringBitmapIter::new(self)
    }
}

/// Accounting below `k + 1` is accounting below `k` or by entry `k` itself.
pub proof fn lemma_prefix_step(es: Seq<(u16, Container)>, k: int)
    requires
        0 <= k,
    ensures
        forall|n: u32|
            #[trigger] prefix_contains(es, k + 1, n) == (prefix_contains(es, k, n) || (k
                < es.len() && index_has(es, k, n))),
{
    assert forall|n: u32|
        #[trigger] prefix_contains(es, k + 1, n) == (prefix_contains(es, k, n) || (k < es.len()
            && index_has(es, k, n))) by {
        if prefix_contains(es, k + 1, n) {
            let i = choose|i: int| 0 <= i < k + 1 && i < es.len() && index_has(es, i, n);
            if i < k {
                assert(prefix_contains(es, k, n));
            }
        }
        if prefix_contains(es, k, n) {
            let i = choose|i: int| 0 <= i < k && i < es.len() && index_has(es, i, n);
            assert(0 <= i < k + 1 && i < es.len() && index_has(es, i, n));
        }
    }
}

/// Accounting below the length is accounting by some entry.
pub proof fn lemma_prefix_full(es: Seq<(u16, Container)>)
    ensures
        forall|n: u32|
            #[trigger] prefix_contains(es, es.len() as int, n) == entries_contain(es, n),
{
    assert forall|n: u32|
        #[trigger] prefix_contains(es, es.len() as int, n) == entries_contain(es, n) by {
        if prefix_contains(es, es.len() as int, n) {
            let i = choose|i: int| 0 <= i < es.len() && i < es.len() && index_has(es, i, n);
            assert(entries_contain(es, n)) by {
                assert(0 <= i < es.len() && index_has(es, i, n));
            }
        }
        if entries_contain(es, n) {
            let i = choose|i: int| 0 <= i < es.len() && index_has(es, i, n);
            assert(0 <= i < es.len() as int && i < es.len() && index_has(es, i, n));
        }
    }
}

impl RoaringBitmap {
    /// The set holding the elements of both operands.
    pub fn union(&self, other: &RoaringBitmap) -> (r: RoaringBitmap)
        requires
            self.wf(),
            other.wf(),
        ensures
            r.wf(),
            forall|n: u32|
                #[trigger] r.contains_spec(n) == (self.contains_spec(n) || other.contains_spec(
                    n,
                )),
    {
        let ghost aes = self.entries@;
        let ghost bes = other.entries@;
        let mut out: Vec<(u16, Container)> = Vec::new();
        let mut count: u64 = 0;
        let mut i: usize = 0;
        let mut j: usize = 0;
        proof {
            lemma_entries_len(aes);
            lemma_entries_len(bes);
        }
        while i < self.entries.len() || j < other.entries.len()
            invariant
                i <= aes.len(),
                j <= bes.len(),
                aes.len() <= 0x10000,
                bes.len() <= 0x10000,
                aes == self.entries@,
                bes == other.entries@,
                entries_wf(aes),
                entries_wf(bes),
                entries_wf(out@),
                out@.len() <= i + j,
                count == all_elems(out@).len(),
                all_elems(out@).len() <= out@.len() * 0x10000,
                forall|t: int|
                    0 <= t < out@.len() ==> (i < aes.len() ==> (#[trigger] out@[t]).0 < aes[
                        i as int].0) && (j < bes.len() ==> out@[t].0 < bes[j as int].0),
                forall|n: u32|
                    #[trigger] all_elems(out@).contains(n) == (prefix_contains(aes, i as int, n)
                        || prefix_contains(bes, j as int, n)),
            decreases aes.len() - i + bes.len() - j,
        {
            let ghost out0 = out@;
            let ghost i0 = i as int;
            let ghost j0 = j as int;
            let a_next = i < self.entries.len();
            let b_next = j < other.entries.len();
            proof {
                if a_next {
                    assert((aes[i0]).1.wf() && (aes[i0]).1.elems().len() > 0);
                }
                if b_next {
                    assert((bes[j0]).1.wf() && (bes[j0]).1.elems().len() > 0);
                }
            }
            let both = a_next && b_next && self.entries[i].0 == other.entries[j].0;
            let take_a = a_next && (!b_next || self.entries[i].0 < other.entries[j].0);
            let e: (u16, Container) = if both {
                let key = self.entries[i].0;
                let c = self.entries[i].1.union(&other.entries[j].1);
                proof {
                    let w = (aes[i0]).1.elems()[0];
                    assert((aes[i0]).1.contains_spec(w)) by {
                        assert((aes[i0]).1.elems()[0] == w);
                    }
                    assert(c.contains_spec(w));
                    assert(c.elems().len() > 0);
                }
                i = i + 1;
                j = j + 1;
                (key, c)
            } else if take_a {
                let key = self.entries[i].0;
                let c = self.entries[i].1.duplicate();
                i = i + 1;
                (key, c)
            } else {
                let key = other.entries[j].0;
                let c = other.entries[j].1.duplicate();
                j = j + 1;
                (key, c)
            };
            let card = e.1.cardinality();
            proof {
                e.1.lemma_elems();
                lemma_all_elems_push(out0, e);
                lemma_entry_elems(e);
                assert(all_elems(out0.push(e)).len() == all_elems(out0).len() + e.1.elems().len());
                assert((out0.len() + 1) * 0x10000 == out0.len() * 0x10000 + 0x10000)
                    by (nonlinear_arith);
                assert(out0.len() * 0x10000 <= (i + j) * 0x10000 <= 0x20000 * 0x10000)
                    by (nonlinear_arith)
                    requires
                        out0.len() <= i + j && i + j <= 0x20000,
                ;
            }
            count = count + card as u64;
            out.push(e);
            proof {
                lemma_prefix_step(aes, i0);
                lemma_prefix_step(bes, j0);
                // The pushed key is strictly above everything already placed
                // and strictly below everything still pending.
                assert forall|t: int|
                    0 <= t < out@.len() implies (i < aes.len() ==> (#[trigger] out@[t]).0 < aes[
                        i as int].0) && (j < bes.len() ==> out@[t].0 < bes[j as int].0) by {
                    if t < out0.len() {
                        assert(out@[t] == out0[t]);
                        if i0 < aes.len() && i < aes.len() {
                            assert(aes[i0].0 <= aes[i as int].0);
                        }
                        if j0 < bes.len() && j < bes.len() {
                            assert(bes[j0].0 <= bes[j as int].0);
                        }
                    }
                }
                assert(entries_wf(out@)) by {
                    assert forall|t: int|
                        0 <= t < out@.len() implies (#[trigger] out@[t]).1.wf()
                            && out@[t].1.elems().len() > 0 by {
                        if t < out0.len() {
                            assert(out@[t] == out0[t]);
                        }
                    }
                    assert forall|s: int, t: int|
                        0 <= s < t < out@.len() implies (#[trigger] out@[s]).0 < (
                    #[trigger] out@[t]).0 by {
                        if t < out0.len() {
                            assert(out@[s] == out0[s] && out@[t] == out0[t]);
                        } else {
                            assert(out@[s] == out0[s]);
                        }
                    }
                }
                assert forall|n: u32|
                    #[trigger] all_elems(out@).contains(n) == (prefix_contains(aes, i as int, n)
                        || prefix_contains(bes, j as int, n)) by {
                    crate::seqs::lemma_concat_contains(all_elems(out0), entry_elems(e), n);
                    lemma_compose(n);
                    assert(all_elems(out0).contains(n) == (prefix_contains(aes, i0, n)
                        || prefix_contains(bes, j0, n)));
                    if both {
                        assert(e.1.contains_spec(lo_of(n)) == ((aes[i0]).1.contains_spec(lo_of(n))
                            || (bes[j0]).1.contains_spec(lo_of(n))));
                        assert(e.0 == aes[i0].0 && e.0 == bes[j0].0);
                    } else if take_a {
                        assert(e.1.elems() == (aes[i0]).1.elems());
                        assert(e.0 == aes[i0].0);
                    } else {
                        assert(e.1.elems() == (bes[j0]).1.elems());
                        assert(e.0 == bes[j0].0);
                    }
                }
            }
        }
        proof {
            lemma_prefix_full(aes);
            lemma_prefix_full(bes);
            lemma_all_elems_membership(aes);
            lemma_all_elems_membership(bes);
        }
        RoaringBitmap { entries: out, count }
    }
}

impl RoaringBitmap {
    /// The set holding the elements common to both operands.
    pub fn intersection(&self, other: &RoaringBitmap) -> (r: RoaringBitmap)
        requires
            self.wf(),
            other.wf(),
        ensures
            r.wf(),
            forall|n: u32|
                #[trigger] r.contains_spec(n) == (self.contains_spec(n) && other.contains_spec(
                    n,
                )),
    {
        let ghost aes = self.entries@;
        let ghost bes = other.entries@;
        let mut out: Vec<(u16, Container)> = Vec::new();
        let mut count: u64 = 0;
        let mut i: usize = 0;
        let mut j: usize = 0;
        proof {
            lemma_entries_len(aes);
            lemma_entries_len(bes);
        }
        while i < self.entries.len() && j < other.entries.len()
            invariant
                i <= aes.len(),
                j <= bes.len(),
                aes.len() <= 0x10000,
                bes.len() <= 0x10000,
                aes == self.entries@,
                bes == other.entries@,
                entries_wf(aes),
                entries_wf(bes),
                entries_wf(out@),
                out@.len() <= i,
                count == all_elems(out@).len(),
                all_elems(out@).len() <= out@.len() * 0x10000,
                forall|t: int|
                    0 <= t < out@.len() ==> i < aes.len() ==> (#[trigger] out@[t]).0 < aes[
                        i as int].0,
                forall|t: int|
                    0 <= t < j ==> i < aes.len() ==> (#[trigger] bes[t]).0 < aes[i as int].0,
                forall|s: int|
                    0 <= s < i ==> j < bes.len() ==> (#[trigger] aes[s]).0 < bes[j as int].0,
                forall|n: u32|
                    #[trigger] all_elems(out@).contains(n) == (prefix_contains(aes, i as int, n)
                        && prefix_contains(bes, j as int, n)),
            decreases aes.len() - i + bes.len() - j,
        {
            let ghost out0 = out@;
            let ghost i0 = i as int;
            let ghost j0 = j as int;
            proof {
                assert((aes[i0]).1.wf() && (aes[i0]).1.elems().len() > 0);
                assert((bes[j0]).1.wf() && (bes[j0]).1.elems().len() > 0);
            }
            if self.entries[i].0 < other.entries[j].0 {
                i = i + 1;
                proof {
                    lemma_prefix_step(aes, i0);
                    assert forall|n: u32|
                        #[trigger] all_elems(out@).contains(n) == (prefix_contains(
                            aes,
                            i as int,
                            n,
                        ) && prefix_contains(bes, j as int, n)) by {
                        if index_has(aes, i0, n) && prefix_contains(bes, j0, n) {
                            let t = choose|t: int|
                                0 <= t < j0 && t < bes.len() && #[trigger] index_has(bes, t, n);
                            assert(bes[t].0 < aes[i0].0);
                        }
                    }
                }
            } else if other.entries[j].0 < self.entries[i].0 {
                j = j + 1;
                proof {
                    lemma_prefix_step(bes, j0);
                    assert forall|n: u32|
                        #[trigger] all_elems(out@).contains(n) == (prefix_contains(
                            aes,
                            i as int,
                            n,
                        ) && prefix_contains(bes, j as int, n)) by {
                        if index_has(bes, j0, n) && prefix_contains(aes, i0, n) {
                            let s = choose|s: int|
                                0 <= s < i0 && s < aes.len() && #[trigger] index_has(aes, s, n);
                            assert(aes[s].0 < bes[j0].0);
                        }
                    }
                }
            } else {
                let key = self.entries[i].0;
                let c = self.entries[i].1.intersect(&other.entries[j].1);
                i = i + 1;
                j = j + 1;
                let keep = !c.is_empty();
                if keep {
                    let e = (key, c);
                    let card = e.1.cardinality();
                    proof {
                        e.1.lemma_elems();
                        lemma_all_elems_push(out0, e);
                        lemma_entry_elems(e);
                        assert((out0.len() + 1) * 0x10000 == out0.len() * 0x10000 + 0x10000)
                            by (nonlinear_arith);
                        assert(out0.len() * 0x10000 <= 0x10000 * 0x10000) by (nonlinear_arith)
                            requires
                                out0.len() <= 0x10000,
                        ;
                    }
                    count = count + card as u64;
                    out.push(e);
                }
                proof {
                    lemma_prefix_step(aes, i0);
                    lemma_prefix_step(bes, j0);
                    assert forall|t: int|
                        0 <= t < out@.len() implies i < aes.len() ==> (#[trigger] out@[t]).0
                            < aes[i as int].0 by {
                        if t < out0.len() {
                            assert(out@[t] == out0[t]);
                            if i0 < aes.len() && i < aes.len() {
                                assert(aes[i0].0 <= aes[i as int].0);
                            }
                        }
                    }
                    assert(entries_wf(out@)) by {
                        assert forall|t: int|
                            0 <= t < out@.len() implies (#[trigger] out@[t]).1.wf()
                                && out@[t].1.elems().len() > 0 by {
                            if t < out0.len() {
                                assert(out@[t] == out0[t]);
                            }
                        }
                        assert forall|s: int, t: int|
                            0 <= s < t < out@.len() implies (#[trigger] out@[s]).0 < (
                        #[trigger] out@[t]).0 by {
                            if t < out0.len() {
                                assert(out@[s] == out0[s] && out@[t] == out0[t]);
                            } else {
                                assert(out@[s] == out0[s]);
                            }
                        }
                    }
                    assert forall|n: u32|
                        #[trigger] all_elems(out@).contains(n) == (prefix_contains(
                            aes,
                            i as int,
                            n,
                        ) && prefix_contains(bes, j as int, n)) by {
                        lemma_compose(n);
                        if keep {
                            crate::seqs::lemma_concat_contains(
                                all_elems(out0),
                                entry_elems((key, c)),
                                n,
                            );
                            assert(all_elems(out0).contains(n) == (prefix_contains(aes, i0, n)
                                && prefix_contains(bes, j0, n)));
                        }
                        // No earlier entry on either side carries this key.
                        if hi_of(n) == key as int {
                            if prefix_contains(aes, i0, n) {
                                let s = choose|s: int|
                                    0 <= s < i0 && s < aes.len() && #[trigger] index_has(
                                        aes,
                                        s,
                                        n,
                                    );
                                assert(aes[s].0 < aes[i0].0);
                            }
                            if prefix_contains(bes, j0, n) {
                                let t = choose|t: int|
                                    0 <= t < j0 && t < bes.len() && #[trigger] index_has(
                                        bes,
                                        t,
                                        n,
                                    );
                                assert(bes[t].0 < bes[j0].0);
                            }
                            assert(c.contains_spec(lo_of(n)) == ((aes[i0]).1.contains_spec(
                                lo_of(n),
                            ) && (bes[j0]).1.contains_spec(lo_of(n))));
                        }
                    }
                }
            }
        }
        proof {
            lemma_all_elems_membership(aes);
            lemma_all_elems_membership(bes);
            assert forall|n: u32|
                #[trigger] all_elems(out@).contains(n) == (entries_contain(aes, n)
                    && entries_contain(bes, n)) by {
                if all_elems(out@).contains(n) {
                    let s = choose|s: int|
                        0 <= s < i && s < aes.len() && #[trigger] index_has(aes, s, n);
                    let t = choose|t: int|
                        0 <= t < j && t < bes.len() && #[trigger] index_has(bes, t, n);
                    assert(entries_contain(aes, n)) by {
                        assert(0 <= s < aes.len() && index_has(aes, s, n));
                    }
                    assert(entries_contain(bes, n)) by {
                        assert(0 <= t < bes.len() && index_has(bes, t, n));
                    }
                }
                if entries_contain(aes, n) && entries_contain(bes, n) {
                    let s = choose|s: int| 0 <= s < aes.len() && #[trigger] index_has(aes, s, n);
                    let t = choose|t: int| 0 <= t < bes.len() && #[trigger] index_has(bes, t, n);
                    assert(aes[s].0 == bes[t].0);
                    if i >= aes.len() {
                        assert(s < i);
                        assert(t < j) by {
                            if t >= j {
                                assert(j < bes.len());
                                assert(aes[s].0 < bes[j as int].0);
                                if t > j {
                                    assert(bes[j as int].0 < bes[t].0);
                                }
                            }
                        }
                    } else {
                        assert(t < j);
                        assert(s < i) by {
                            if s >= i {
                                assert(bes[t].0 < aes[i as int].0);
                                if s > i {
                                    assert(aes[i as int].0 < aes[s].0);
                                }
                            }
                        }
                    }
                    assert(prefix_contains(aes, i as int, n)) by {
                        assert(0 <= s < i as int && s < aes.len() && index_has(aes, s, n));
                    }
                    assert(prefix_contains(bes, j as int, n)) by {
                        assert(0 <= t < j as int && t < bes.len() && index_has(bes, t, n));
                    }
                }
            }
        }
        RoaringBitmap { entries: out, count }
    }

    /// The set holding the elements of `self` that are not in `other`.
    pub fn difference(&self, other: &RoaringBitmap) -> (r: RoaringBitmap)
        requires
            self.wf(),
            other.wf(),
        ensures
            r.wf(),
            forall|n: u32|
                #[trigger] r.contains_spec(n) == (self.contains_spec(n) && !other.contains_spec(
                    n,
                )),
    {
        let ghost aes = self.entries@;
        let ghost bes = other.entries@;
        let mut out: Vec<(u16, Container)> = Vec::new();
        let mut count: u64 = 0;
        let mut i: usize = 0;
        let mut j: usize = 0;
        proof {
            lemma_entries_len(aes);
            lemma_entries_len(bes);
            lemma_all_elems_membership(bes);
        }
        while i < self.entries.len()
            invariant
                i <= aes.len(),
                j <= bes.len(),
                aes.len() <= 0x10000,
                bes.len() <= 0x10000,
                aes == self.entries@,
                bes == other.entries@,
                entries_wf(aes),
                entries_wf(bes),
                entries_wf(out@),
                out@.len() <= i,
                count == all_elems(out@).len(),
                all_elems(out@).len() <= out@.len() * 0x10000,
                forall|t: int|
                    0 <= t < out@.len() ==> i < aes.len() ==> (#[trigger] out@[t]).0 < aes[
                        i as int].0,
                forall|t: int|
                    0 <= t < j ==> i < aes.len() ==> (#[trigger] bes[t]).0 < aes[i as int].0,
                forall|n: u32|
                    #[trigger] all_elems(out@).contains(n) == (prefix_contains(aes, i as int, n)
                        && !entries_contain(bes, n)),
            decreases aes.len() - i + bes.len() - j,
        {
            let ghost out0 = out@;
            let ghost i0 = i as int;
            let ghost j0 = j as int;
            proof {
                assert((aes[i0]).1.wf() && (aes[i0]).1.elems().len() > 0);
            }
            if j < other.entries.len() && other.entries[j].0 < self.entries[i].0 {
                j = j + 1;
            } else {
                let key = self.entries[i].0;
                let matched = j < other.entries.len() && other.entries[j].0 == key;
                let c: Container = if matched {
                    proof {
                        assert((bes[j0]).1.wf() && (bes[j0]).1.elems().len() > 0);
                    }
                    self.entries[i].1.difference(&other.entries[j].1)
                } else {
                    self.entries[i].1.duplicate()
                };
                i = i + 1;
                let keep = !c.is_empty();
                if keep {
                    let e = (key, c);
                    let card = e.1.cardinality();
                    proof {
                        e.1.lemma_elems();
                        lemma_all_elems_push(out0, e);
                        lemma_entry_elems(e);
                        assert((out0.len() + 1) * 0x10000 == out0.len() * 0x10000 + 0x10000)
                            by (nonlinear_arith);
                        assert(out0.len() * 0x10000 <= 0x10000 * 0x10000) by (nonlinear_arith)
                            requires
                                out0.len() <= 0x10000,
                        ;
                    }
                    count = count + card as u64;
                    out.push(e);
                }
                proof {
                    lemma_prefix_step(aes, i0);
                    assert forall|t: int|
                        0 <= t < out@.len() implies i < aes.len() ==> (#[trigger] out@[t]).0
                            < aes[i as int].0 by {
                        if t < out0.len() {
                            assert(out@[t] == out0[t]);
                            if i0 < aes.len() && i < aes.len() {
                                assert(aes[i0].0 <= aes[i as int].0);
                            }
                        }
                    }
                    assert(entries_wf(out@)) by {
                        assert forall|t: int|
                            0 <= t < out@.len() implies (#[trigger] out@[t]).1.wf()
                                && out@[t].1.elems().len() > 0 by {
                            if t < out0.len() {
                                assert(out@[t] == out0[t]);
                            }
                        }
                        assert forall|s: int, t: int|
                            0 <= s < t < out@.len() implies (#[trigger] out@[s]).0 < (
                        #[trigger] out@[t]).0 by {
                            if t < out0.len() {
                                assert(out@[s] == out0[s] && out@[t] == out0[t]);
                            } else {
                                assert(out@[s] == out0[s]);
                            }
                        }
                    }
                    // The only entry of `other` that can carry this key is the
                    // matched one.
                    assert forall|n: u32|
                        hi_of(n) == key as int implies entries_contain(bes, n) == (matched
                            && (bes[j0]).1.elems().contains(lo_of(n))) by {
                        if entries_contain(bes, n) {
                            let t = choose|t: int|
                                0 <= t < bes.len() && #[trigger] index_has(bes, t, n);
                            if t < j0 {
                                assert(bes[t].0 < aes[i0].0);
                            }
                            if j0 < bes.len() && t > j0 {
                                assert(bes[j0].0 < bes[t].0);
                            }
                            assert(t == j0 && matched);
                        }
                        if matched && (bes[j0]).1.elems().contains(lo_of(n)) {
                            assert(entries_contain(bes, n)) by {
                                assert(0 <= j0 < bes.len() && index_has(bes, j0, n));
                            }
                        }
                    }
                    assert forall|n: u32|
                        #[trigger] all_elems(out@).contains(n) == (prefix_contains(
                            aes,
                            i as int,
                            n,
                        ) && !entries_contain(bes, n)) by {
                        lemma_compose(n);
                        if keep {
                            crate::seqs::lemma_concat_contains(
                                all_elems(out0),
                                entry_elems((key, c)),
                                n,
                            );
                            assert(all_elems(out0).contains(n) == (prefix_contains(aes, i0, n)
                                && !entries_contain(bes, n)));
                        }
                        if hi_of(n) == key as int {
                            if prefix_contains(aes, i0, n) {
                                let s = choose|s: int|
                                    0 <= s < i0 && s < aes.len() && #[trigger] index_has(
                                        aes,
                                        s,
                                        n,
                                    );
                                assert(aes[s].0 < aes[i0].0);
                            }
                            if matched {
                                assert(c.contains_spec(lo_of(n)) == ((aes[i0]).1.contains_spec(
                                    lo_of(n),
                                ) && !(bes[j0]).1.contains_spec(lo_of(n))));
                            } else {
                                assert(c.elems() == (aes[i0]).1.elems());
                            }
                        }
                    }
                }
            }
        }
        proof {
            lemma_all_elems_membership(aes);
            lemma_prefix_full(aes);
            assert(i as int == aes.len() as int);
        }
        RoaringBitmap { entries: out, count }
    }

    /// The set holding the elements in exactly one of the operands.
    pub fn symmetric_difference(&self, other: &RoaringBitmap) -> (r: RoaringBitmap)
        requires
            self.wf(),
            other.wf(),
        ensures
            r.wf(),
            forall|n: u32|
                #[trigger] r.contains_spec(n) == (self.contains_spec(n) != other.contains_spec(
                    n,
                )),
    {
        let ghost aes = self.entries@;
        let ghost bes = other.entries@;
        let mut out: Vec<(u16, Container)> = Vec::new();
        let mut count: u64 = 0;
        let mut i: usize = 0;
        let mut j: usize = 0;
        proof {
            lemma_entries_len(aes);
            lemma_entries_len(bes);
        }
        while i < self.entries.len() || j < other.entries.len()
            invariant
                i <= aes.len(),
                j <= bes.len(),
                aes.len() <= 0x10000,
                bes.len() <= 0x10000,
                aes == self.entries@,
                bes == other.entries@,
                entries_wf(aes),
                entries_wf(bes),
                entries_wf(out@),
                out@.len() <= i + j,
                count == all_elems(out@).len(),
                all_elems(out@).len() <= out@.len() * 0x10000,
                forall|t: int|
                    0 <= t < out@.len() ==> (i < aes.len() ==> (#[trigger] out@[t]).0 < aes[
                        i as int].0) && (j < bes.len() ==> out@[t].0 < bes[j as int].0),
                forall|t: int|
                    0 <= t < j ==> i < aes.len() ==> (#[trigger] bes[t]).0 < aes[i as int].0,
                forall|s: int|
                    0 <= s < i ==> j < bes.len() ==> (#[trigger] aes[s]).0 < bes[j as int].0,
                forall|n: u32|
                    #[trigger] all_elems(out@).contains(n) == (prefix_contains(aes, i as int, n)
                        != prefix_contains(bes, j as int, n)),
            decreases aes.len() - i + bes.len() - j,
        {
            let ghost out0 = out@;
            let ghost i0 = i as int;
            let ghost j0 = j as int;
            let a_next = i < self.entries.len();
            let b_next = j < other.entries.len();
            proof {
                if a_next {
                    assert((aes[i0]).1.wf() && (aes[i0]).1.elems().len() > 0);
                }
                if b_next {
                    assert((bes[j0]).1.wf() && (bes[j0]).1.elems().len() > 0);
                }
            }
            let both = a_next && b_next && self.entries[i].0 == other.entries[j].0;
            let take_a = a_next && (!b_next || self.entries[i].0 < other.entries[j].0);
            let key: u16;
            let c: Container;
            if both {
                key = self.entries[i].0;
                c = self.entries[i].1.symmetric_difference(&other.entries[j].1);
                i = i + 1;
                j = j + 1;
            } else if take_a {
                key = self.entries[i].0;
                c = self.entries[i].1.duplicate();
                i = i + 1;
            } else {
                key = other.entries[j].0;
                c = other.entries[j].1.duplicate();
                j = j + 1;
            }
            let keep = !c.is_empty();
            if keep {
                let e = (key, c);
                let card = e.1.cardinality();
                proof {
                    e.1.lemma_elems();
                    lemma_all_elems_push(out0, e);
                    lemma_entry_elems(e);
                    assert((out0.len() + 1) * 0x10000 == out0.len() * 0x10000 + 0x10000)
                        by (nonlinear_arith);
                    assert(out0.len() * 0x10000 <= 0x20000 * 0x10000) by (nonlinear_arith)
                        requires
                            out0.len() <= 0x20000,
                    ;
                }
                count = count + card as u64;
                out.push(e);
            }
            proof {
                lemma_prefix_step(aes, i0);
                lemma_prefix_step(bes, j0);
                lemma_entry_elems((key, c));
                assert forall|t: int|
                    0 <= t < out@.len() implies (i < aes.len() ==> (#[trigger] out@[t]).0 < aes[
                        i as int].0) && (j < bes.len() ==> out@[t].0 < bes[j as int].0) by {
                    if t < out0.len() {
                        assert(out@[t] == out0[t]);
                        if i0 < aes.len() && i < aes.len() {
                            assert(aes[i0].0 <= aes[i as int].0);
                        }
                        if j0 < bes.len() && j < bes.len() {
                            assert(bes[j0].0 <= bes[j as int].0);
                        }
                    }
                }
                assert(entries_wf(out@)) by {
                    assert forall|t: int|
                        0 <= t < out@.len() implies (#[trigger] out@[t]).1.wf()
                            && out@[t].1.elems().len() > 0 by {
                        if t < out0.len() {
                            assert(out@[t] == out0[t]);
                        }
                    }
                    assert forall|s: int, t: int|
                        0 <= s < t < out@.len() implies (#[trigger] out@[s]).0 < (
                    #[trigger] out@[t]).0 by {
                        if t < out0.len() {
                            assert(out@[s] == out0[s] && out@[t] == out0[t]);
                        } else {
                            assert(out@[s] == out0[s]);
                        }
                    }
                }
                assert forall|n: u32|
                    #[trigger] all_elems(out@).contains(n) == (prefix_contains(aes, i as int, n)
                        != prefix_contains(bes, j as int, n)) by {
                    lemma_compose(n);
                    if keep {
                        crate::seqs::lemma_concat_contains(all_elems(out0), entry_elems((key, c)), n);
                    }
                    assert(all_elems(out0).contains(n) == (prefix_contains(aes, i0, n)
                        != prefix_contains(bes, j0, n)));
                    if hi_of(n) == key as int {
                        if prefix_contains(aes, i0, n) {
                            let s = choose|s: int|
                                0 <= s < i0 && s < aes.len() && #[trigger] index_has(aes, s, n);
                            if both || take_a {
                                assert(aes[s].0 < aes[i0].0);
                                assert(false);
                            } else {
                                assert(aes[s].0 < bes[j0].0);
                                assert(false);
                            }
                        }
                        if prefix_contains(bes, j0, n) {
                            let t = choose|t: int|
                                0 <= t < j0 && t < bes.len() && #[trigger] index_has(bes, t, n);
                            if both || !take_a {
                                assert(bes[t].0 < bes[j0].0);
                                assert(false);
                            } else {
                                assert(bes[t].0 < aes[i0].0);
                                assert(false);
                            }
                        }
                        if both {
                            assert(c.contains_spec(lo_of(n)) == ((aes[i0]).1.contains_spec(
                                lo_of(n),
                            ) != (bes[j0]).1.contains_spec(lo_of(n))));
                        } else if take_a {
                            assert(c.elems() == (aes[i0]).1.elems());
                        } else {
                            assert(c.elems() == (bes[j0]).1.elems());
                        }
                    }
                }
            }
        }
        proof {
            lemma_prefix_full(aes);
            lemma_prefix_full(bes);
            lemma_all_elems_membership(aes);
            lemma_all_elems_membership(bes);
        }
        RoaringBitmap { entries: out, count }
    }

    /// Whether the two sets share an element.
    pub fn intersects(&self, other: &RoaringBitmap) -> (r: bool)
        requires
            self.wf(),
            other.wf(),
        ensures
            r == exists|n: u32| self.contains_spec(n) && other.contains_spec(n),
    {
        let ghost aes = self.entries@;
        let ghost bes = other.entries@;
        let mut i: usize = 0;
        let mut j: usize = 0;
        proof {
            lemma_all_elems_membership(aes);
            lemma_all_elems_membership(bes);
        }
        while i < self.entries.len() && j < other.entries.len()
            invariant
                i <= aes.len(),
                j <= bes.len(),
                aes == self.entries@,
                bes == other.entries@,
                entries_wf(aes),
                entries_wf(bes),
                forall|t: int|
                    0 <= t < j ==> i < aes.len() ==> (#[trigger] bes[t]).0 < aes[i as int].0,
                forall|s: int|
                    0 <= s < i ==> j < bes.len() ==> (#[trigger] aes[s]).0 < bes[j as int].0,
                forall|n: u32| !(prefix_contains(aes, i as int, n) && entries_contain(bes, n)),
                forall|n: u32| !(entries_contain(aes, n) && prefix_contains(bes, j as int, n)),
            decreases aes.len() - i + bes.len() - j,
        {
            let ghost i0 = i as int;
            let ghost j0 = j as int;
            proof {
                assert((aes[i0]).1.wf() && (aes[i0]).1.elems().len() > 0);
                assert((bes[j0]).1.wf() && (bes[j0]).1.elems().len() > 0);
            }
            if self.entries[i].0 < other.entries[j].0 {
                i = i + 1;
                proof {
                    lemma_prefix_step(aes, i0);
                    assert forall|n: u32|
                        !(prefix_contains(aes, i as int, n) && entries_contain(bes, n)) by {
                        if index_has(aes, i0, n) && entries_contain(bes, n) {
                            let t = choose|t: int|
                                0 <= t < bes.len() && #[trigger] index_has(bes, t, n);
                            if t < j0 {
                                assert(bes[t].0 < aes[i0].0);
                            } else {
                                assert(bes[j0].0 <= bes[t].0);
                            }
                        }
                    }
                }
            } else if other.entries[j].0 < self.entries[i].0 {
                j = j + 1;
                proof {
                    lemma_prefix_step(bes, j0);
                    assert forall|n: u32|
                        !(entries_contain(aes, n) && prefix_contains(bes, j as int, n)) by {
                        if index_has(bes, j0, n) && entries_contain(aes, n) {
                            let s = choose|s: int|
                                0 <= s < aes.len() && #[trigger] index_has(aes, s, n);
                            if s < i0 {
                                assert(aes[s].0 < bes[j0].0);
                            } else {
                                assert(aes[i0].0 <= aes[s].0);
                            }
                        }
                    }
                }
            } else {
                let key = self.entries[i].0;
                if self.entries[i].1.intersects(&other.entries[j].1) {
                    proof {
                        lemma_all_elems_membership(aes);
                        lemma_all_elems_membership(bes);
                        let lo = choose|lo: u16|
                            (aes[i0]).1.contains_spec(lo) && (bes[j0]).1.contains_spec(lo);
                        let n = value_of(key, lo);
                        lemma_split(key, lo);
                        assert(index_has(aes, i0, n));
                        assert(index_has(bes, j0, n));
                        assert(entries_contain(aes, n)) by {
                            assert(0 <= i0 < aes.len() && index_has(aes, i0, n));
                        }
                        assert(entries_contain(bes, n)) by {
                            assert(0 <= j0 < bes.len() && index_has(bes, j0, n));
                        }
                        assert(self.contains_spec(n) && other.contains_spec(n));
                    }
                    return true;
                }
                i = i + 1;
                j = j + 1;
                proof {
                    lemma_prefix_step(aes, i0);
                    lemma_prefix_step(bes, j0);
                    assert forall|n: u32|
                        !(prefix_contains(aes, i as int, n) && entries_contain(bes, n)) by {
                        if index_has(aes, i0, n) && entries_contain(bes, n) {
                            let t = choose|t: int|
                                0 <= t < bes.len() && #[trigger] index_has(bes, t, n);
                            if t < j0 {
                                assert(bes[t].0 < aes[i0].0);
                            } else if t > j0 {
                                assert(bes[j0].0 < bes[t].0);
                            } else {
                                assert((aes[i0]).1.contains_spec(lo_of(n)) && (
                                bes[j0]).1.contains_spec(lo_of(n)));
                            }
                        }
                    }
                    assert forall|n: u32|
                        !(entries_contain(aes, n) && prefix_contains(bes, j as int, n)) by {
                        if index_has(bes, j0, n) && entries_contain(aes, n) {
                            let s = choose|s: int|
                                0 <= s < aes.len() && #[trigger] index_has(aes, s, n);
                            if s < i0 {
                                assert(aes[s].0 < aes[i0].0);
                                assert(aes[s].0 < bes[j0].0);
                            } else if s > i0 {
                                assert(aes[i0].0 < aes[s].0);
                            } else {
                                assert((aes[i0]).1.contains_spec(lo_of(n)) && (
                                bes[j0]).1.contains_spec(lo_of(n)));
                            }
                        }
                    }
                }
            }
        }
        proof {
            assert forall|n: u32| !(self.contains_spec(n) && other.contains_spec(n)) by {
                if entries_contain(aes, n) && entries_contain(bes, n) {
                    let s = choose|s: int| 0 <= s < aes.len() && #[trigger] index_has(aes, s, n);
                    let t = choose|t: int| 0 <= t < bes.len() && #[trigger] index_has(bes, t, n);
                    assert(aes[s].0 == bes[t].0);
                    if i >= aes.len() {
                        assert(prefix_contains(aes, i as int, n)) by {
                            assert(0 <= s < i as int && s < aes.len() && index_has(aes, s, n));
                        }
                    } else {
                        assert(t < j) by {
                            if t >= j {
                                assert(aes[s].0 < bes[j as int].0 || s >= i);
                                if s >= i {
                                    assert(aes[i as int].0 <= aes[s].0);
                                    assert(bes[t].0 < aes[i as int].0 || t >= j);
                                }
                                assert(bes[j as int].0 <= bes[t].0);
                            }
                        }
                        assert(prefix_contains(bes, j as int, n)) by {
                            assert(0 <= t < j as int && t < bes.len() && index_has(bes, t, n));
                        }
                    }
                }
            }
        }
        false
    }

    /// Whether every element of `self` is also in `other`.
    pub fn is_subset(&self, other: &RoaringBitmap) -> (r: bool)
        requires
            self.wf(),
            other.wf(),
        ensures
            r == forall|n: u32| self.contains_spec(n) ==> other.contains_spec(n),
    {
        let ghost aes = self.entries@;
        let ghost bes = other.entries@;
        let mut i: usize = 0;
        let mut j: usize = 0;
        proof {
            lemma_all_elems_membership(aes);
            lemma_all_elems_membership(bes);
        }
        while i < self.entries.len()
            invariant
                i <= aes.len(),
                j <= bes.len(),
                aes == self.entries@,
                bes == other.entries@,
                entries_wf(aes),
                entries_wf(bes),
                forall|t: int|
                    0 <= t < j ==> i < aes.len() ==> (#[trigger] bes[t]).0 < aes[i as int].0,
                forall|n: u32|
                    #[trigger] prefix_contains(aes, i as int, n) ==> entries_contain(bes, n),
            decreases aes.len() - i + bes.len() - j,
        {
            let ghost i0 = i as int;
            let ghost j0 = j as int;
            proof {
                assert((aes[i0]).1.wf() && (aes[i0]).1.elems().len() > 0);
            }
            if j < other.entries.len() && other.entries[j].0 < self.entries[i].0 {
                j = j + 1;
            } else if j < other.entries.len() && other.entries[j].0 == self.entries[i].0 {
                proof {
                    assert((bes[j0]).1.wf() && (bes[j0]).1.elems().len() > 0);
                }
                let key = self.entries[i].0;
                if !self.entries[i].1.is_subset(&other.entries[j].1) {
                    proof {
                        lemma_all_elems_membership(aes);
                        lemma_all_elems_membership(bes);
                        let lo = choose|lo: u16|
                            (aes[i0]).1.contains_spec(lo) && !(bes[j0]).1.contains_spec(lo);
                        let n = value_of(key, lo);
                        lemma_split(key, lo);
                        assert(index_has(aes, i0, n));
                        assert(entries_contain(aes, n)) by {
                            assert(0 <= i0 < aes.len() && index_has(aes, i0, n));
                        }
                        assert(!entries_contain(bes, n)) by {
                            if entries_contain(bes, n) {
                                let t = choose|t: int|
                                    0 <= t < bes.len() && #[trigger] index_has(bes, t, n);
                                if t < j0 {
                                    assert(bes[t].0 < aes[i0].0);
                                }
                                if t > j0 {
                                    assert(bes[j0].0 < bes[t].0);
                                }
                                assert(t == j0);
                            }
                        }
                        assert(self.contains_spec(n) && !other.contains_spec(n));
                    }
                    return false;
                }
                i = i + 1;
                proof {
                    lemma_prefix_step(aes, i0);
                    assert forall|n: u32|
                        #[trigger] prefix_contains(aes, i as int, n) implies entries_contain(
                        bes,
                        n,
                    ) by {
                        if index_has(aes, i0, n) {
                            assert((bes[j0]).1.contains_spec(lo_of(n)));
                            assert(entries_contain(bes, n)) by {
                                assert(0 <= j0 < bes.len() && index_has(bes, j0, n));
                            }
                        }
                    }
                }
            } else {
                // `other` has no entry with this key; any element of this
                // container is a witness.
                proof {
                    lemma_all_elems_membership(aes);
                    lemma_all_elems_membership(bes);
                    let lo = (aes[i0]).1.elems()[0];
                    let key = aes[i0].0;
                    let n = value_of(key, lo);
                    lemma_split(key, lo);
                    assert((aes[i0]).1.elems().contains(lo)) by {
                        assert((aes[i0]).1.elems()[0] == lo);
                    }
                    assert(index_has(aes, i0, n));
                    assert(entries_contain(aes, n)) by {
                        assert(0 <= i0 < aes.len() && index_has(aes, i0, n));
                    }
                    assert(!entries_contain(bes, n)) by {
                        if entries_contain(bes, n) {
                            let t = choose|t: int|
                                0 <= t < bes.len() && #[trigger] index_has(bes, t, n);
                            if t < j0 {
                                assert(bes[t].0 < aes[i0].0);
                            } else {
                                assert(j0 < bes.len());
                                assert(bes[j0].0 <= bes[t].0);
                                assert(bes[j0].0 != key && bes[j0].0 >= key || j0 >= bes.len());
                            }
                        }
                    }
                    assert(self.contains_spec(n) && !other.contains_spec(n));
                }
                return false;
            }
        }
        proof {
            lemma_prefix_full(aes);
            assert forall|n: u32| self.contains_spec(n) implies other.contains_spec(n) by {
                assert(entries_contain(aes, n) == prefix_contains(aes, aes.len() as int, n));
                assert(prefix_contains(aes, i as int, n) ==> entries_contain(bes, n));
            }
        }
        true
    }
}

/// The low-half bounds that the range `[start, end)` induces on the bucket of
/// key `k`.
pub open spec fn bucket_lo(start: u32, k: u16) -> int {
    if k as int == hi_of(start) {
        lo_of(start) as int
    } else {
        0
    }
}

pub open spec fn bucket_hi(end: u32, k: u16) -> int {
    if k as int == hi_of((end - 1) as u32) {
        lo_of((end - 1) as u32) as int + 1
    } else {
        0x10000
    }
}

/// For an element whose key lies within the range's key span, membership in
/// `[start, end)` is a bound on its low half alone.
proof fn lemma_range_key(start: u32, end: u32, k: u16, n: u32)
    requires
        start < end,
        hi_of(start) <= k as int <= hi_of((end - 1) as u32),
        hi_of(n) == k as int,
    ensures
        (start <= n < end) == (bucket_lo(start, k) <= (lo_of(n) as int) < bucket_hi(end, k)),
{
    let last = (end - 1) as u32;
    lemma_compose(n);
    lemma_compose(start);
    lemma_compose(last);
    lemma_value_order(hi_of(n) as u16, lo_of(n), hi_of(start) as u16, lo_of(start));
    lemma_value_order(hi_of(n) as u16, lo_of(n), hi_of(last) as u16, lo_of(last));
}

/// The consecutive values `vs`, `vs + 1`, …, up to but not including `ve`.
fn range_values(vs: u16, ve: u32) -> (r: Vec<u16>)
    requires
        vs as int <= ve as int,
        ve <= 0x10000,
    ensures
        crate::seqs::sorted16(r@),
        forall|v: u16| #[trigger] r@.contains(v) == (vs as int <= (v as int) < ve as int),
{
    let mut r: Vec<u16> = Vec::new();
    let mut v: u32 = vs as u32;
    while v < ve
        invariant
            vs as int <= v as int <= ve as int,
            ve <= 0x10000,
            r@.len() == v - vs,
            forall|t: int| 0 <= t < r@.len() ==> #[trigger] r@[t] as int == vs + t,
        decreases ve - v,
    {
        r.push(v as u16);
        v = v + 1;
    }
    proof {
        assert forall|x: u16| #[trigger] r@.contains(x) == (vs as int <= (x as int) < ve as int) by {
            if r@.contains(x) {
                let t = choose|t: int| 0 <= t < r@.len() && r@[t] == x;
                assert(r@[t] as int == vs + t);
            }
            if vs as int <= (x as int) < ve as int {
                let t = x as int - vs as int;
                assert(r@[t] as int == vs + t);
                assert(r@.contains(x)) by {
                    assert(r@[t] == x);
                }
            }
        }
    }
    r
}

impl RoaringBitmap {
    /// Removes every element of the half-open range: the range is bucketed
    /// into one value list per key, and each present container removes its
    /// list in a single pass.
    #[verifier::rlimit(100)]
    pub fn remove_range(&mut self, start: u32, end: u32)
        requires
            old(self).wf(),
        ensures
            final(self).wf(),
            forall|n: u32|
                #[trigger] final(self).contains_spec(n) == (old(self).contains_spec(n) && !(start
                    <= n < end)),
    {
        if start >= end {
            return ;
        }
        let last = end - 1;
        let (hs, ls) = split_into_key_value(start);
        let (he, le) = split_into_key_value(last);
        let mut k: u32 = hs as u32;
        while k <= he as u32
            invariant
                self.wf(),
                start < end,
                last == end - 1,
                hs as int == hi_of(start),
                ls == lo_of(start),
                he as int == hi_of(last),
                le == lo_of(last),
                hs as u32 <= k,
                k <= he as u32 + 1,
                forall|n: u32|
                    #[trigger] self.contains_spec(n) == (old(self).contains_spec(n) && !(start
                        <= n < end && hi_of(n) < k)),
            decreases he as u32 + 1 - k,
        {
            let key = k as u16;
            let vs: u16 = if k == hs as u32 {
                ls
            } else {
                0
            };
            let ve: u32 = if k == he as u32 {
                le as u32 + 1
            } else {
                0x10000
            };
            proof {
                if k == hs as u32 && k == he as u32 {
                    lemma_compose(start);
                    lemma_compose(last);
                    lemma_value_order(hs, ls, he, le);
                }
            }
            let values = range_values(vs, ve);
            let ghost es0 = self.entries@;
            let ghost mid = *self;
            let idx = self.find_key(key);
            proof {
                self.lemma_elems();
            }
            if idx < self.entries.len() && self.entries[idx].0 == key {
                let (kk, mut c) = self.entries.remove(idx);
                let ghost pre_c = c.elems();
                let removed = c.remove_values(&values);
                let ghost new_c = c.elems();
                proof {
                    assert forall|v: u16|
                        new_c.contains(v) == (pre_c.contains(v) && !values@.contains(v)) by {
                        assert(c.contains_spec(v) == (pre_c.contains(v) && !values@.contains(v)));
                    }
                }
                let keep = !c.is_empty();
                if keep {
                    self.entries.insert(idx, (kk, c));
                }
                proof {
                    let es1 = self.entries@;
                    lemma_all_elems_split(es0, idx as int);
                    lemma_entry_elems(es0[idx as int]);
                    lemma_all_elems_membership(es0);
                    if keep {
                        assert(es1 =~= es0.update(idx as int, es1[idx as int]));
                        assert(es1[idx as int].0 == key);
                        assert(es1[idx as int].1.elems() == new_c);
                        assert(es1.take(idx as int) =~= es0.take(idx as int));
                        assert(es1.skip(idx as int + 1) =~= es0.skip(idx as int + 1));
                        lemma_all_elems_split(es1, idx as int);
                        lemma_entry_elems(es1[idx as int]);
                        assert(entries_wf(es1)) by {
                            assert forall|i: int|
                                0 <= i < es1.len() implies (#[trigger] es1[i]).1.wf()
                                    && es1[i].1.elems().len() > 0 by {
                                if i != idx {
                                    assert(es1[i] == es0[i]);
                                }
                            }
                            assert forall|i: int, j: int|
                                0 <= i < j < es1.len() implies (#[trigger] es1[i]).0 < (
                            #[trigger] es1[j]).0 by {
                                assert(es1[i].0 == es0[i].0);
                                assert(es1[j].0 == es0[j].0);
                            }
                        }
                    } else {
                        assert(es1 =~= es0.remove(idx as int));
                        assert(es1.take(idx as int) =~= es0.take(idx as int));
                        assert(es1.skip(idx as int) =~= es0.skip(idx as int + 1));
                        assert(es1 =~= es1.take(idx as int) + es1.skip(idx as int));
                        lemma_all_elems_concat(es1.take(idx as int), es1.skip(idx as int));
                        assert(entries_wf(es1)) by {
                            assert forall|i: int|
                                0 <= i < es1.len() implies (#[trigger] es1[i]).1.wf()
                                    && es1[i].1.elems().len() > 0 by {
                                if i < idx {
                                    assert(es1[i] == es0[i]);
                                } else {
                                    assert(es1[i] == es0[i + 1]);
                                }
                            }
                            assert forall|i: int, j: int|
                                0 <= i < j < es1.len() implies (#[trigger] es1[i]).0 < (
                            #[trigger] es1[j]).0 by {
                                let pi: int = if i < idx {
                                    i
                                } else {
                                    i + 1
                                };
                                let pj: int = if j < idx {
                                    j
                                } else {
                                    j + 1
                                };
                                assert(es1[i] == es0[pi]);
                                assert(es1[j] == es0[pj]);
                            }
                        }
                    }
                    lemma_all_elems_membership(es1);
                    // Membership after this key's pass.
                    assert forall|n: u32|
                        #[trigger] all_elems(es1).contains(n) == (all_elems(es0).contains(n) && !(
                        hi_of(n) == key as int && vs as int <= (lo_of(n) as int) < ve as int)) by {
                        lemma_compose(n);
                        if entries_contain(es1, n) {
                            let i = choose|i: int|
                                0 <= i < es1.len() && #[trigger] index_has(es1, i, n);
                            if keep {
                                if i != idx {
                                    assert(es1[i] == es0[i]);
                                    assert(index_has(es0, i, n));
                                    assert(es0[i].0 != key);
                                } else {
                                    assert(index_has(es0, idx as int, n));
                                }
                            } else {
                                let pi: int = if i < idx {
                                    i
                                } else {
                                    i + 1
                                };
                                assert(es1[i] == es0[pi]);
                                assert(index_has(es0, pi, n));
                                assert(es0[pi].0 != key);
                            }
                        }
                        if entries_contain(es0, n) && !(hi_of(n) == key as int && vs as int <= (lo_of(n) as int) < ve as int) {
                            let i = choose|i: int|
                                0 <= i < es0.len() && #[trigger] index_has(es0, i, n);
                            if i != idx {
                                if keep {
                                    assert(es1[i] == es0[i]);
                                    assert(index_has(es1, i, n));
                                } else {
                                    let ni: int = if i < idx {
                                        i
                                    } else {
                                        i - 1
                                    };
                                    assert(es1[ni] == es0[i]);
                                    assert(index_has(es1, ni, n));
                                }
                            } else {
                                assert(hi_of(n) == key as int);
                                assert(!values@.contains(lo_of(n)));
                                assert(new_c.contains(lo_of(n)));
                                assert(keep) by {
                                    if !keep {
                                        assert(new_c.len() == 0);
                                        assert(new_c[0] == lo_of(n));
                                    }
                                }
                                assert(index_has(es1, idx as int, n));
                            }
                        }
                    }
                    // Counting: only this entry changed.
                    assert(all_elems(es0).len() == all_elems(es1).len() + removed);
                }
                self.count = self.count - removed as u64;
            } else {
                proof {
                    assert forall|i: int|
                        0 <= i < es0.len() implies (#[trigger] es0[i]).0 != key by {
                        if i < idx {
                            assert(es0[i].0 < key);
                        } else {
                            assert(es0[i].0 >= key);
                        }
                    }
                    lemma_all_elems_membership(es0);
                    assert forall|n: u32|
                        #[trigger] all_elems(es0).contains(n) == (all_elems(es0).contains(n) && !(
                        hi_of(n) == key as int && vs as int <= (lo_of(n) as int) < ve as int)) by {
                        if entries_contain(es0, n) && hi_of(n) == key as int {
                            let i = choose|i: int|
                                0 <= i < es0.len() && #[trigger] index_has(es0, i, n);
                        }
                    }
                }
            }
            k = k + 1;
            proof {
                assert forall|n: u32|
                    #[trigger] self.contains_spec(n) == (old(self).contains_spec(n) && !(start
                        <= n < end && hi_of(n) < k)) by {
                    assert(mid.contains_spec(n) == (old(self).contains_spec(n) && !(start <= n
                        < end && hi_of(n) < k - 1)));
                    if hi_of(n) == key as int {
                        lemma_range_key(start, end, key, n);
                        assert(vs as int == bucket_lo(start, key));
                        assert(ve as int == bucket_hi(end, key));
                    }
                }
            }
        }
        proof {
            assert forall|n: u32|
                #[trigger] self.contains_spec(n) == (old(self).contains_spec(n) && !(start <= n
                    < end)) by {
                if start <= n < end {
                    lemma_compose(n);
                    lemma_compose(last);
                    assert(hi_of(n) <= hi_of(last)) by {
                        vstd::arithmetic::div_mod::lemma_div_is_ordered(
                            n as int,
                            last as int,
                            0x10000,
                        );
                    }
                }
            }
        }
    }

    /// Counts of sparse and dense containers, and the approximate byte
    /// footprint of the index.
    pub fn stats(&self) -> (r: (usize, usize, u64))
        requires
            self.wf(),
        ensures
            r.0 == array_count(self.entries@),
            r.1 == bitmap_count(self.entries@),
            r.2 == footprint(self.entries@),
    {
        proof {
            lemma_entries_len(self.entries@);
        }
        let mut arrays: usize = 0;
        let mut bitmaps: usize = 0;
        let mut bytes: u64 = (self.entries.len() as u64) * 2;
        let mut t: usize = 0;
        while t < self.entries.len()
            invariant
                t <= self.entries@.len(),
                self.entries@.len() <= 0x10000,
                entries_wf(self.entries@),
                arrays == array_count(self.entries@.take(t as int)),
                bitmaps == bitmap_count(self.entries@.take(t as int)),
                arrays + bitmaps <= t,
                bytes == self.entries@.len() * 2 + byte_count(self.entries@.take(t as int)),
                byte_count(self.entries@.take(t as int)) <= t * 0x20000,
            decreases self.entries@.len() - t,
        {
            let ghost t0 = t as int;
            proof {
                assert(self.entries@.take(t0 + 1) =~= self.entries@.take(t0).push(
                    self.entries@[t0],
                ));
                assert(self.entries@.take(t0 + 1).drop_last() =~= self.entries@.take(t0));
                assert((self.entries@[t0]).1.wf() && (self.entries@[t0]).1.elems().len() > 0);
                (self.entries@[t0]).1.lemma_elems();
                assert((t0 + 1) * 0x20000 == t0 * 0x20000 + 0x20000) by (nonlinear_arith);
                assert(t0 * 0x20000 <= 0x10000 * 0x20000) by (nonlinear_arith)
                    requires
                        t0 <= 0x10000,
                ;
            }
            match &self.entries[t].1 {
                Container::Array(a) => {
                    arrays = arrays + 1;
                    bytes = bytes + (a.cardinality() as u64) * 2;
                },
                Container::Bitmap(_) => {
                    bitmaps = bitmaps + 1;
                    bytes = bytes + 8192;
                },
            }
            t = t + 1;
        }
        proof {
            assert(self.entries@.take(self.entries@.len() as int) =~= self.entries@);
        }
        (arrays, bitmaps, bytes)
    }
}

/// Number of sparse containers in the index.
pub open spec fn array_count(es: Seq<(u16, Container)>) -> int
    decreases es.len(),
{
    if es.len() == 0 {
        0
    } else {
        array_count(es.drop_last()) + if es.last().1 is Array {
            1int
        } else {
            0int
        }
    }
}

/// Number of dense containers in the index.
pub open spec fn bitmap_count(es: Seq<(u16, Container)>) -> int
    decreases es.len(),
{
    if es.len() == 0 {
        0
    } else {
        bitmap_count(es.drop_last()) + if es.last().1 is Bitmap {
            1int
        } else {
            0int
        }
    }
}

/// Approximate bytes used by the containers: two per sparse entry value,
/// 8,192 per dense container.
pub open spec fn byte_count(es: Seq<(u16, Container)>) -> int
    decreases es.len(),
{
    if es.len() == 0 {
        0
    } else {
        byte_count(es.drop_last()) + match es.last().1 {
            Container::Array(a) => (a.elems().len() * 2) as int,
            Container::Bitmap(_) => 8192int,
        }
    }
}

/// Approximate byte footprint: two bytes per key plus the containers.
pub open spec fn footprint(es: Seq<(u16, Container)>) -> int {
    es.len() * 2 + byte_count(es)
}

/// An ordered cursor over a bitmap's elements, captured at creation.
pub struct RoaringBitmapIter {
    pub elems: Vec<u32>,
    pub pos: usize,
}

impl RoaringBitmapIter {
    /// The elements the cursor has not yet yielded.
    pub open spec fn remaining(&self) -> Seq<u32> {
        self.elems@.skip(self.pos as int)
    }

    pub open spec fn wf(&self) -> bool {
        self.pos <= self.elems@.len()
    }

    pub fn new(bitmap: &RoaringBitmap) -> (r: RoaringBitmapIter)
        requires
            bitmap.wf(),
        ensures
            r.wf(),
            r.remaining() == bitmap.elems(),
    {
        let r = RoaringBitmapIter { elems: bitmap.to_array(), pos: 0 };
        proof {
            assert(r.elems@.skip(0) =~= r.elems@);
        }
        r
    }

    /// The next element in ascending order, if any.
    pub fn next(&mut self) -> (r: Option<u32>)
        requires
            old(self).wf(),
        ensures
            final(self).wf(),
            r == if old(self).remaining().len() == 0 {
                Option::<u32>::None
            } else {
                Option::<u32>::Some(old(self).remaining()[0])
            },
            final(self).remaining() == if old(self).remaining().len() == 0 {
                old(self).remaining()
            } else {
                old(self).remaining().skip(1)
            },
    {
        if self.pos < self.elems.len() {
            let v = self.elems[self.pos];
            let ghost p = self.pos as int;
            self.pos = self.pos + 1;
            proof {
                assert(self.elems@.skip(p + 1) =~= self.elems@.skip(p).skip(1));
                assert(self.elems@.skip(p)[0] == self.elems@[p]);
            }
            Some(v)
        } else {
            None
        }
    }
}

} // verus!
