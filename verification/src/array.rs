//! Sparse container: a strictly ascending vector of 16-bit values.

use vstd::prelude::*;
use crate::seqs::{
    sorted16, count_le16, lemma_push_contains, lemma_sorted16_count_le,
    lemma_sorted16_member_bounds,
};

verus! {

/// Largest cardinality a sparse container keeps before it is promoted to a
/// dense container.
pub const ARRAY_MAX_SIZE: usize = 4096;

pub struct ArrayContainer {
    pub array: Vec<u16>,
}

/// Index of the first entry of `a` that is `value` or larger.
pub(crate) fn vec_lower_bound(a: &Vec<u16>, value: u16) -> (idx: usize)
    requires
        sorted16(a@),
    ensures
        idx <= a@.len(),
        forall|i: int| 0 <= i < idx ==> a@[i] < value,
        forall|i: int| idx <= i < a@.len() ==> a@[i] >= value,
{
    let mut lo: usize = 0;
    let mut hi: usize = a.len();
    while lo < hi
        invariant
            lo <= hi <= a@.len(),
            sorted16(a@),
            forall|i: int| 0 <= i < lo ==> a@[i] < value,
            forall|i: int| hi <= i < a@.len() ==> a@[i] >= value,
        decreases hi - lo,
    {
        let mid: usize = lo + (hi - lo) / 2;
        if a[mid] < value {
            lo = mid + 1;
        } else {
            hi = mid;
        }
    }
    lo
}

/// Whether the vector `a` holds `value`, by a linear scan; the vector need
/// not be sorted.
pub(crate) fn vec_contains(a: &Vec<u16>, value: u16) -> (r: bool)
    ensures
        r == a@.contains(value),
{
    let mut i: usize = 0;
    while i < a.len()
        invariant
            i <= a@.len(),
            forall|k: int| 0 <= k < i ==> a@[k] != value,
        decreases a@.len() - i,
    {
        if a[i] == value {
            proof {
                assert(a@.contains(value)) by {
                    assert(a@[i as int] == value);
                }
            }
            return true;
        }
        i = i + 1;
    }
    proof {
        if a@.contains(value) {
            let k = choose|k: int| 0 <= k < a@.len() && a@[k] == value;
        }
    }
    false
}

/// Whether the sorted vector `a` holds `value`.
pub(crate) fn vec_contains_sorted(a: &Vec<u16>, value: u16) -> (r: bool)
    requires
        sorted16(a@),
    ensures
        r == a@.contains(value),
{
    let idx = vec_lower_bound(a, value);
    if idx < a.len() && a[idx] == value {
        proof {
            assert(a@.contains(value)) by {
                assert(a@[idx as int] == value);
            }
        }
        true
    } else {
        proof {
            if a@.contains(value) {
                let i = choose|i: int| 0 <= i < a@.len() && a@[i] == value;
                if i > idx {
                    assert(a@[idx as int] < a@[i]);
                }
            }
        }
        false
    }
}

impl ArrayContainer {
    pub open spec fn elems(&self) -> Seq<u16> {
        self.array@
    }

    pub open spec fn wf(&self) -> bool {
        sorted16(self.array@)
    }

    pub open spec fn contains_spec(&self, value: u16) -> bool {
        self.array@.contains(value)
    }

    pub fn new() -> (r: ArrayContainer)
        ensures
            r.wf(),
            r.elems() == Seq::<u16>::empty(),
    {
        ArrayContainer { array: Vec::new() }
    }

    pub(crate) fn duplicate(&self) -> (r: ArrayContainer)
        ensures
            r.elems() == self.elems(),
    {
        let mut array: Vec<u16> = Vec::new();
        let mut i: usize = 0;
        while i < self.array.len()
            invariant
                i <= self.array@.len(),
                array@ == self.array@.take(i as int),
            decreases self.array@.len() - i,
        {
            array.push(self.array[i]);
            proof {
                assert(self.array@.take(i + 1) =~= self.array@.take(i as int).push(
                    self.array@[i as int],
                ));
            }
            i = i + 1;
        }
        proof {
            assert(array@ =~= self.array@);
        }
        ArrayContainer { array }
    }

    pub(crate) fn cardinality(&self) -> (r: usize)
        ensures
            r == self.elems().len(),
    {
        self.array.len()
    }

    pub(crate) fn is_empty(&self) -> (r: bool)
        ensures
            r == (self.elems().len() == 0),
    {
        self.array.len() == 0
    }

    pub(crate) fn contains(&self, value: u16) -> (r: bool)
        requires
            self.wf(),
        ensures
            r == self.contains_spec(value),
    {
        vec_contains_sorted(&self.array, value)
    }

    /// Adds `value`, keeping the vector sorted; reports whether the set grew.
    pub(crate) fn add(&mut self, value: u16) -> (added: bool)
        requires
            old(self).wf(),
        ensures
            final(self).wf(),
            added == !old(self).contains_spec(value),
            forall|v: u16|
                final(self).contains_spec(v) == (old(self).contains_spec(v) || v == value),
            final(self).elems().len() == old(self).elems().len() + if added {
                1int
            } else {
                0int
            },
    {
        let idx = vec_lower_bound(&self.array, value);
        if idx < self.array.len() && self.array[idx] == value {
            proof {
                assert(self.array@.contains(value)) by {
                    assert(self.array@[idx as int] == value);
                }
            }
            false
        } else {
            proof {
                if self.array@.contains(value) {
                    let i = choose|i: int| 0 <= i < self.array@.len() && self.array@[i] == value;
                    if i > idx {
                        assert(self.array@[idx as int] < self.array@[i]);
                    }
                }
            }
            let ghost pre = self.array@;
            self.array.insert(idx, value);
            proof {
                pre.insert_ensures(idx as int, value);
                assert forall|i: int, j: int|
                    0 <= i < j < self.array@.len() implies self.array@[i] < self.array@[j] by {
                    if j < idx {
                        assert(pre[i] < pre[j]);
                    } else if i > idx {
                        assert(pre[i - 1] < pre[j - 1]);
                    } else if i < idx && j == idx {
                        assert(pre[i] < value);
                    } else if i == idx && j > idx {
                        assert(pre[j - 1] >= value);
                        assert(value != pre[j - 1]) by {
                            if pre.contains(value) {
                            } else {
                                assert(!pre.contains(value));
                                if pre[j - 1] == value {
                                    assert(pre.contains(value)) by {
                                        assert(pre[j - 1] == value);
                                    }
                                }
                            }
                        }
                    } else if i < idx && j > idx {
                        assert(pre[i] < value);
                        assert(pre[j - 1] >= value);
                    }
                }
                assert forall|v: u16|
                    self.array@.contains(v) == (pre.contains(v) || v == value) by {
                    if pre.contains(v) {
                        let i = choose|i: int| 0 <= i < pre.len() && pre[i] == v;
                        if i < idx {
                            assert(self.array@[i] == v);
                        } else {
                            assert(self.array@[i + 1] == v);
                        }
                    }
                    if v == value {
                        assert(self.array@[idx as int] == v);
                    }
                    if self.array@.contains(v) && v != value {
                        let i = choose|i: int|
                            0 <= i < self.array@.len() && self.array@[i] == v;
                        if i < idx {
                            assert(pre[i] == v);
                        } else if i > idx {
                            assert(pre[i - 1] == v);
                        }
                    }
                }
            }
            true
        }
    }

    /// Removes `value`; reports whether the set shrank.
    pub(crate) fn remove(&mut self, value: u16) -> (removed: bool)
        requires
            old(self).wf(),
        ensures
            final(self).wf(),
            removed == old(self).contains_spec(value),
            forall|v: u16|
                final(self).contains_spec(v) == (old(self).contains_spec(v) && v != value),
            old(self).elems().len() == final(self).elems().len() + if removed {
                1int
            } else {
                0int
            },
    {
        let idx = vec_lower_bound(&self.array, value);
        if idx < self.array.len() && self.array[idx] == value {
            proof {
                assert(self.array@.contains(value)) by {
                    assert(self.array@[idx as int] == value);
                }
            }
            let ghost pre = self.array@;
            self.array.remove(idx);
            proof {
                pre.remove_ensures(idx as int);
                assert forall|i: int, j: int|
                    0 <= i < j < self.array@.len() implies self.array@[i] < self.array@[j] by {
                    let pi: int = if i < idx { i } else { i + 1 };
                    let pj: int = if j < idx { j } else { j + 1 };
                    assert(pre[pi] < pre[pj]);
                }
                assert forall|v: u16|
                    self.array@.contains(v) == (pre.contains(v) && v != value) by {
                    if self.array@.contains(v) {
                        let i = choose|i: int|
                            0 <= i < self.array@.len() && self.array@[i] == v;
                        let pi: int = if i < idx { i } else { i + 1 };
                        assert(pre[pi] == v);
                        if v == value {
                            if pi < idx {
                                assert(pre[pi] < pre[idx as int]);
                            } else {
                                assert(pre[idx as int] < pre[pi]);
                            }
                        }
                    }
                    if pre.contains(v) && v != value {
                        let i = choose|i: int| 0 <= i < pre.len() && pre[i] == v;
                        if i < idx {
                            assert(self.array@[i] == v);
                        } else {
                            assert(i != idx);
                            assert(self.array@[i - 1] == v);
                        }
                    }
                }
            }
            true
        } else {
            proof {
                if self.array@.contains(value) {
                    let i = choose|i: int| 0 <= i < self.array@.len() && self.array@[i] == value;
                    if i > idx {
                        assert(self.array@[idx as int] < self.array@[i]);
                    }
                }
            }
            false
        }
    }

    /// Removes every entry listed in `values` in one left-compacting pass;
    /// the value list may come in any order. Returns how many entries were
    /// removed.
    pub(crate) fn remove_values(&mut self, values: &Vec<u16>) -> (removed: usize)
        requires
            old(self).wf(),
        ensures
            final(self).wf(),
            forall|v: u16|
                final(self).contains_spec(v) == (old(self).contains_spec(v) && !values@.contains(
                    v,
                )),
            old(self).elems().len() == final(self).elems().len() + removed,
    {
        let ghost pre = self.array@;
        let mut kept: Vec<u16> = Vec::new();
        let mut i: usize = 0;
        while i < self.array.len()
            invariant
                i <= pre.len(),
                self.array@ == pre,
                sorted16(pre),
                sorted16(kept@),
                kept@.len() <= i,
                forall|v: u16|
                    kept@.contains(v) == (pre.take(i as int).contains(v) && !values@.contains(v)),
                forall|k: int| i <= k < pre.len() ==> kept@.len() == 0 || kept@.last() < pre[k],
            decreases pre.len() - i,
        {
            let x = self.array[i];
            if !vec_contains(values, x) {
                let ghost kept_pre = kept@;
                kept.push(x);
                proof {
                    assert forall|v: u16|
                        kept@.contains(v) == (pre.take(i + 1).contains(v) && !values@.contains(
                            v,
                        )) by {
                        lemma_push_contains(kept_pre, x, v);
                        lemma_push_contains(pre.take(i as int), x, v);
                        assert(pre.take(i + 1) =~= pre.take(i as int).push(pre[i as int]));
                    }
                    assert forall|a: int, b: int|
                        0 <= a < b < kept@.len() implies kept@[a] < kept@[b] by {
                        if b == kept@.len() - 1 && a < b {
                            assert(kept_pre[a] <= kept_pre.last());
                        }
                    }
                }
            } else {
                proof {
                    assert forall|v: u16|
                        kept@.contains(v) == (pre.take(i + 1).contains(v) && !values@.contains(
                            v,
                        )) by {
                        lemma_push_contains(pre.take(i as int), x, v);
                        assert(pre.take(i + 1) =~= pre.take(i as int).push(pre[i as int]));
                    }
                }
            }
            i = i + 1;
        }
        proof {
            assert(pre.take(pre.len() as int) =~= pre);
        }
        let removed = self.array.len() - kept.len();
        proof {
            lemma_sorted16_sub_len(kept@, pre);
        }
        self.array = kept;
        removed
    }

    pub(crate) fn minimum(&self) -> (r: Option<u16>)
        ensures
            r == if self.elems().len() == 0 {
                Option::<u16>::None
            } else {
                Option::<u16>::Some(self.elems()[0])
            },
    {
        if self.array.len() == 0 {
            None
        } else {
            Some(self.array[0])
        }
    }

    pub(crate) fn maximum(&self) -> (r: Option<u16>)
        ensures
            r == if self.elems().len() == 0 {
                Option::<u16>::None
            } else {
                Option::<u16>::Some(self.elems().last())
            },
    {
        if self.array.len() == 0 {
            None
        } else {
            Some(self.array[self.array.len() - 1])
        }
    }

    /// The entry at rank `idx`, if any.
    pub(crate) fn select(&self, idx: usize) -> (r: Option<u16>)
        ensures
            r == if idx < self.elems().len() {
                Option::<u16>::Some(self.elems()[idx as int])
            } else {
                Option::<u16>::None
            },
    {
        if idx < self.array.len() {
            Some(self.array[idx])
        } else {
            None
        }
    }

    /// Number of entries that do not exceed `value`.
    pub(crate) fn rank(&self, value: u16) -> (r: usize)
        requires
            self.wf(),
        ensures
            r == count_le16(self.elems(), value),
    {
        let idx = vec_lower_bound(&self.array, value);
        let hit = idx < self.array.len() && self.array[idx] == value;
        let r = if hit {
            idx + 1
        } else {
            idx
        };
        proof {
            assert forall|i: int| r <= i < self.array@.len() implies self.array@[i] > value by {
                if i > idx {
                    assert(self.array@[idx as int] < self.array@[i]);
                }
            }
            lemma_sorted16_count_le(self.array@, value, r as int);
        }
        r
    }

    pub(crate) fn to_vec(&self) -> (r: Vec<u16>)
        ensures
            r@ == self.elems(),
    {
        let d = self.duplicate();
        d.array
    }
}

/// A strictly ascending sequence whose members all occur in `b` is no longer
/// than `b`.
pub proof fn lemma_sorted16_sub_len(a: Seq<u16>, b: Seq<u16>)
    requires
        sorted16(a),
        sorted16(b),
        forall|v: u16| a.contains(v) ==> b.contains(v),
    ensures
        a.len() <= b.len(),
    decreases a.len(),
{
    if a.len() > 0 {
        // Everything in `a` except its maximum sits inside `b` with the
        // maximum removed, so induction on the dropped maxima applies.
        let am = a.last();
        assert(a.contains(am)) by {
            assert(a[a.len() - 1] == am);
        }
        lemma_sorted16_member_bounds(b, am);
        let bm = b.last();
        assert forall|v: u16| a.drop_last().contains(v) implies b.drop_last().contains(v) by {
            let i = choose|i: int| 0 <= i < a.len() - 1 && a[i] == v;
            assert(a.contains(v)) by {
                assert(a[i] == v);
            }
            let j = choose|j: int| 0 <= j < b.len() && b[j] == v;
            assert(v < am);
            assert(v <= bm);
            if j == b.len() - 1 {
                assert(b[j] == bm);
                assert(am <= bm);
            }
            assert(j < b.len() - 1);
            assert(b.drop_last()[j] == v);
        }
        assert(sorted16(a.drop_last()));
        assert(sorted16(b.drop_last()));
        lemma_sorted16_sub_len(a.drop_last(), b.drop_last());
    }
}

/// Sorted merge of two sorted vectors, keeping each value once.
pub(crate) fn merge_union(a: &Vec<u16>, b: &Vec<u16>) -> (out: Vec<u16>)
    requires
        sorted16(a@),
        sorted16(b@),
    ensures
        sorted16(out@),
        forall|v: u16| out@.contains(v) == (a@.contains(v) || b@.contains(v)),
        out@.len() <= a@.len() + b@.len(),
{
    let mut out: Vec<u16> = Vec::new();
    let mut i: usize = 0;
    let mut j: usize = 0;
    while i < a.len() || j < b.len()
        invariant
            i <= a@.len(),
            j <= b@.len(),
            sorted16(a@),
            sorted16(b@),
            sorted16(out@),
            out@.len() <= i + j,
            forall|v: u16|
                out@.contains(v) == (a@.take(i as int).contains(v) || b@.take(j as int).contains(
                    v,
                )),
            forall|k: int| i <= k < a@.len() ==> out@.len() == 0 || out@.last() < a@[k],
            forall|k: int| j <= k < b@.len() ==> out@.len() == 0 || out@.last() < b@[k],
        decreases a@.len() - i + b@.len() - j,
    {
        let take_a = if i >= a.len() {
            false
        } else if j >= b.len() {
            true
        } else {
            a[i] <= b[j]
        };
        let ghost out_pre = out@;
        let ghost i0 = i as int;
        let ghost j0 = j as int;
        if take_a {
            let x = a[i];
            out.push(x);
            i = i + 1;
            let both = j < b.len() && b[j] == x;
            if both {
                j = j + 1;
            }
            proof {
                assert(a@.take(i0 + 1) =~= a@.take(i0).push(a@[i0]));
                if both {
                    assert(b@.take(j0 + 1) =~= b@.take(j0).push(b@[j0]));
                }
                assert forall|v: u16|
                    out@.contains(v) == (a@.take(i as int).contains(v) || b@.take(
                        j as int,
                    ).contains(v)) by {
                    lemma_push_contains(out_pre, x, v);
                    lemma_push_contains(a@.take(i0), a@[i0], v);
                    if both {
                        lemma_push_contains(b@.take(j0), b@[j0], v);
                    }
                }
                assert forall|p: int, q: int|
                    0 <= p < q < out@.len() implies out@[p] < out@[q] by {
                    if q == out@.len() - 1 {
                        assert(out_pre[p] <= out_pre.last());
                    }
                }
            }
        } else {
            let x = b[j];
            out.push(x);
            j = j + 1;
            proof {
                assert(b@.take(j0 + 1) =~= b@.take(j0).push(b@[j0]));
                assert forall|v: u16|
                    out@.contains(v) == (a@.take(i as int).contains(v) || b@.take(
                        j as int,
                    ).contains(v)) by {
                    lemma_push_contains(out_pre, x, v);
                    lemma_push_contains(b@.take(j0), b@[j0], v);
                }
                assert forall|p: int, q: int|
                    0 <= p < q < out@.len() implies out@[p] < out@[q] by {
                    if q == out@.len() - 1 {
                        assert(out_pre[p] <= out_pre.last());
                    }
                }
            }
        }
    }
    proof {
        assert(a@.take(a@.len() as int) =~= a@);
        assert(b@.take(b@.len() as int) =~= b@);
    }
    out
}

/// Sorted intersection of two sorted vectors.
pub(crate) fn merge_intersect(a: &Vec<u16>, b: &Vec<u16>) -> (out: Vec<u16>)
    requires
        sorted16(a@),
        sorted16(b@),
    ensures
        sorted16(out@),
        forall|v: u16| out@.contains(v) == (a@.contains(v) && b@.contains(v)),
        out@.len() <= a@.len(),
{
    let mut out: Vec<u16> = Vec::new();
    let mut i: usize = 0;
    let mut j: usize = 0;
    while i < a.len() && j < b.len()
        invariant
            i <= a@.len(),
            j <= b@.len(),
            sorted16(a@),
            sorted16(b@),
            sorted16(out@),
            out@.len() <= i,
            forall|v: u16|
                out@.contains(v) == (a@.take(i as int).contains(v) && b@.take(j as int).contains(
                    v,
                )),
            forall|v: u16|
                a@.take(i as int).contains(v) && b@.contains(v) ==> b@.take(j as int).contains(v),
            forall|v: u16|
                b@.take(j as int).contains(v) && a@.contains(v) ==> a@.take(i as int).contains(v),
            forall|k: int| i <= k < a@.len() ==> out@.len() == 0 || out@.last() < a@[k],
            forall|k: int| j <= k < b@.len() ==> out@.len() == 0 || out@.last() < b@[k],
        decreases a@.len() - i + b@.len() - j,
    {
        let ghost out_pre = out@;
        let ghost i0 = i as int;
        let ghost j0 = j as int;
        if a[i] == b[j] {
            let x = a[i];
            out.push(x);
            i = i + 1;
            j = j + 1;
            proof {
                assert(a@.take(i0 + 1) =~= a@.take(i0).push(a@[i0]));
                assert(b@.take(j0 + 1) =~= b@.take(j0).push(b@[j0]));
                assert forall|v: u16|
                    out@.contains(v) == (a@.take(i as int).contains(v) && b@.take(
                        j as int,
                    ).contains(v)) by {
                    lemma_push_contains(out_pre, x, v);
                    lemma_push_contains(a@.take(i0), a@[i0], v);
                    lemma_push_contains(b@.take(j0), b@[j0], v);
                }
                assert forall|v: u16|
                    a@.take(i as int).contains(v) && b@.contains(v) implies b@.take(
                    j as int,
                ).contains(v) by {
                    lemma_push_contains(a@.take(i0), a@[i0], v);
                    lemma_push_contains(b@.take(j0), b@[j0], v);
                    if v == x {
                        assert(b@.take(j as int)[j0] == x);
                    }
                }
                assert forall|v: u16|
                    b@.take(j as int).contains(v) && a@.contains(v) implies a@.take(
                    i as int,
                ).contains(v) by {
                    lemma_push_contains(b@.take(j0), b@[j0], v);
                    lemma_push_contains(a@.take(i0), a@[i0], v);
                    if v == x {
                        assert(a@.take(i as int)[i0] == x);
                    }
                }
                assert forall|p: int, q: int|
                    0 <= p < q < out@.len() implies out@[p] < out@[q] by {
                    if q == out@.len() - 1 {
                        assert(out_pre[p] <= out_pre.last());
                    }
                }
            }
        } else if a[i] < b[j] {
            let x = a[i];
            i = i + 1;
            proof {
                assert(a@.take(i0 + 1) =~= a@.take(i0).push(a@[i0]));
                // `x` is nowhere in `b`: later entries are larger, and an
                // earlier entry equal to `x` would already sit in `a`'s prefix.
                assert(!b@.contains(x)) by {
                    if b@.contains(x) {
                        let k = choose|k: int| 0 <= k < b@.len() && b@[k] == x;
                        if k >= j0 {
                            assert(b@[j0] <= b@[k]);
                        } else {
                            assert(b@.take(j0).contains(x)) by {
                                assert(b@.take(j0)[k] == x);
                            }
                            assert(a@.contains(x)) by {
                                assert(a@[i0] == x);
                            }
                            assert(a@.take(i0).contains(x));
                            let m = choose|m: int| 0 <= m < i0 && a@.take(i0)[m] == x;
                            assert(a@[m] < a@[i0]);
                        }
                    }
                }
                assert forall|v: u16|
                    out@.contains(v) == (a@.take(i as int).contains(v) && b@.take(
                        j as int,
                    ).contains(v)) by {
                    lemma_push_contains(a@.take(i0), a@[i0], v);
                    if v == x && b@.take(j0).contains(v) {
                        let k = choose|k: int| 0 <= k < j0 && b@.take(j0)[k] == v;
                        assert(b@[k] == v);
                    }
                }
                assert forall|v: u16|
                    a@.take(i as int).contains(v) && b@.contains(v) implies b@.take(
                    j as int,
                ).contains(v) by {
                    lemma_push_contains(a@.take(i0), a@[i0], v);
                }
            }
        } else {
            let x = b[j];
            j = j + 1;
            proof {
                assert(b@.take(j0 + 1) =~= b@.take(j0).push(b@[j0]));
                assert(!a@.contains(x)) by {
                    if a@.contains(x) {
                        let k = choose|k: int| 0 <= k < a@.len() && a@[k] == x;
                        if k >= i0 {
                            assert(a@[i0] <= a@[k]);
                        } else {
                            assert(a@.take(i0).contains(x)) by {
                                assert(a@.take(i0)[k] == x);
                            }
                            assert(b@.contains(x)) by {
                                assert(b@[j0] == x);
                            }
                            assert(b@.take(j0).contains(x));
                            let m = choose|m: int| 0 <= m < j0 && b@.take(j0)[m] == x;
                            assert(b@[m] < b@[j0]);
                        }
                    }
                }
                assert forall|v: u16|
                    out@.contains(v) == (a@.take(i as int).contains(v) && b@.take(
                        j as int,
                    ).contains(v)) by {
                    lemma_push_contains(b@.take(j0), b@[j0], v);
                    if v == x && a@.take(i0).contains(v) {
                        let k = choose|k: int| 0 <= k < i0 && a@.take(i0)[k] == v;
                        assert(a@[k] == v);
                    }
                }
                assert forall|v: u16|
                    b@.take(j as int).contains(v) && a@.contains(v) implies a@.take(
                    i as int,
                ).contains(v) by {
                    lemma_push_contains(b@.take(j0), b@[j0], v);
                }
            }
        }
    }
    proof {
        assert(a@.take(a@.len() as int) =~= a@);
        assert(b@.take(b@.len() as int) =~= b@);
        if i == a@.len() {
            assert forall|v: u16| out@.contains(v) == (a@.contains(v) && b@.contains(v)) by {
                if a@.contains(v) && b@.contains(v) {
                    assert(b@.take(j as int).contains(v));
                }
                if out@.contains(v) {
                    let k = choose|k: int| 0 <= k < j && b@.take(j as int)[k] == v;
                    assert(b@[k] == v);
                }
            }
        } else {
            assert forall|v: u16| out@.contains(v) == (a@.contains(v) && b@.contains(v)) by {
                if a@.contains(v) && b@.contains(v) {
                    assert(a@.take(i as int).contains(v));
                }
                if out@.contains(v) {
                    let k = choose|k: int| 0 <= k < i && a@.take(i as int)[k] == v;
                    assert(a@[k] == v);
                }
            }
        }
    }
    out
}

/// Sorted difference: entries of `a` that are not in `b`.
pub(crate) fn merge_difference(a: &Vec<u16>, b: &Vec<u16>) -> (out: Vec<u16>)
    requires
        sorted16(a@),
        sorted16(b@),
    ensures
        sorted16(out@),
        forall|v: u16| out@.contains(v) == (a@.contains(v) && !b@.contains(v)),
        out@.len() <= a@.len(),
{
    let mut out: Vec<u16> = Vec::new();
    let mut i: usize = 0;
    let mut j: usize = 0;
    while i < a.len()
        invariant
            i <= a@.len(),
            j <= b@.len(),
            sorted16(a@),
            sorted16(b@),
            sorted16(out@),
            out@.len() <= i,
            forall|v: u16| out@.contains(v) == (a@.take(i as int).contains(v) && !b@.contains(v)),
            forall|k: int| 0 <= k < j ==> i < a@.len() ==> b@[k] < a@[i as int],
            forall|k: int| i <= k < a@.len() ==> out@.len() == 0 || out@.last() < a@[k],
        decreases a@.len() - i + b@.len() - j,
    {
        let ghost i0 = i as int;
        let ghost j0 = j as int;
        if j < b.len() && b[j] < a[i] {
            j = j + 1;
        } else if j < b.len() && b[j] == a[i] {
            proof {
                assert(b@.contains(a@[i0])) by {
                    assert(b@[j0] == a@[i0]);
                }
                assert(a@.take(i0 + 1) =~= a@.take(i0).push(a@[i0]));
                assert forall|v: u16|
                    out@.contains(v) == (a@.take(i0 + 1).contains(v) && !b@.contains(v)) by {
                    lemma_push_contains(a@.take(i0), a@[i0], v);
                }
            }
            i = i + 1;
        } else {
            let x = a[i];
            proof {
                assert(!b@.contains(x)) by {
                    if b@.contains(x) {
                        let k = choose|k: int| 0 <= k < b@.len() && b@[k] == x;
                        if k >= j0 {
                            assert(b@[j0] <= b@[k]);
                        }
                    }
                }
            }
            let ghost out_pre = out@;
            out.push(x);
            i = i + 1;
            proof {
                assert(a@.take(i0 + 1) =~= a@.take(i0).push(a@[i0]));
                assert forall|v: u16|
                    out@.contains(v) == (a@.take(i as int).contains(v) && !b@.contains(v)) by {
                    lemma_push_contains(out_pre, x, v);
                    lemma_push_contains(a@.take(i0), a@[i0], v);
                }
                assert forall|p: int, q: int|
                    0 <= p < q < out@.len() implies out@[p] < out@[q] by {
                    if q == out@.len() - 1 {
                        assert(out_pre[p] <= out_pre.last());
                    }
                }
            }
        }
    }
    proof {
        assert(a@.take(a@.len() as int) =~= a@);
    }
    out
}

/// Sorted symmetric difference: entries in exactly one of the inputs.
pub(crate) fn merge_symdiff(a: &Vec<u16>, b: &Vec<u16>) -> (out: Vec<u16>)
    requires
        sorted16(a@),
        sorted16(b@),
    ensures
        sorted16(out@),
        forall|v: u16| out@.contains(v) == (a@.contains(v) != b@.contains(v)),
        out@.len() <= a@.len() + b@.len(),
{
    let mut out: Vec<u16> = Vec::new();
    let mut i: usize = 0;
    let mut j: usize = 0;
    while i < a.len() || j < b.len()
        invariant
            i <= a@.len(),
            j <= b@.len(),
            sorted16(a@),
            sorted16(b@),
            sorted16(out@),
            out@.len() <= i + j,
            forall|v: u16|
                out@.contains(v) == (a@.take(i as int).contains(v) != b@.take(j as int).contains(
                    v,
                )),
            forall|v: u16|
                a@.take(i as int).contains(v) && b@.contains(v) ==> b@.take(j as int).contains(v),
            forall|v: u16|
                b@.take(j as int).contains(v) && a@.contains(v) ==> a@.take(i as int).contains(v),
            forall|k: int| i <= k < a@.len() ==> out@.len() == 0 || out@.last() < a@[k],
            forall|k: int| j <= k < b@.len() ==> out@.len() == 0 || out@.last() < b@[k],
        decreases a@.len() - i + b@.len() - j,
    {
        let ghost out_pre = out@;
        let ghost i0 = i as int;
        let ghost j0 = j as int;
        let equal = i < a.len() && j < b.len() && a[i] == b[j];
        if equal {
            let ghost x = a@[i0];
            i = i + 1;
            j = j + 1;
            proof {
                assert(a@.take(i0 + 1) =~= a@.take(i0).push(a@[i0]));
                assert(b@.take(j0 + 1) =~= b@.take(j0).push(b@[j0]));
                assert(!out@.contains(x)) by {
                    if out@.contains(x) {
                        lemma_sorted16_member_bounds(out@, x);
                        assert(out@.last() < a@[i0]);
                    }
                }
                assert forall|v: u16|
                    out@.contains(v) == (a@.take(i as int).contains(v) != b@.take(
                        j as int,
                    ).contains(v)) by {
                    lemma_push_contains(a@.take(i0), a@[i0], v);
                    lemma_push_contains(b@.take(j0), b@[j0], v);
                }
                assert forall|v: u16|
                    a@.take(i as int).contains(v) && b@.contains(v) implies b@.take(
                    j as int,
                ).contains(v) by {
                    lemma_push_contains(a@.take(i0), a@[i0], v);
                    lemma_push_contains(b@.take(j0), b@[j0], v);
                    if v == x {
                        assert(b@.take(j as int)[j0] == x);
                    }
                }
                assert forall|v: u16|
                    b@.take(j as int).contains(v) && a@.contains(v) implies a@.take(
                    i as int,
                ).contains(v) by {
                    lemma_push_contains(b@.take(j0), b@[j0], v);
                    lemma_push_contains(a@.take(i0), a@[i0], v);
                    if v == x {
                        assert(a@.take(i as int)[i0] == x);
                    }
                }
            }
        } else {
            let take_a = if i >= a.len() {
                false
            } else if j >= b.len() {
                true
            } else {
                a[i] < b[j]
            };
            if take_a {
                let x = a[i];
                proof {
                    // `x` is nowhere in `b`: later entries are larger, and an
                    // earlier entry equal to `x` would already be in `a`'s
                    // prefix, contradicting strict ascent.
                    assert(!b@.contains(x)) by {
                        if b@.contains(x) {
                            let k = choose|k: int| 0 <= k < b@.len() && b@[k] == x;
                            if k >= j0 {
                                assert(b@[j0] <= b@[k]);
                            } else {
                                assert(b@.take(j0).contains(x)) by {
                                    assert(b@.take(j0)[k] == x);
                                }
                                assert(a@.contains(x)) by {
                                    assert(a@[i0] == x);
                                }
                                assert(a@.take(i0).contains(x));
                                let m = choose|m: int| 0 <= m < i0 && a@.take(i0)[m] == x;
                                assert(a@[m] < a@[i0]);
                            }
                        }
                    }
                }
                out.push(x);
                i = i + 1;
                proof {
                    assert(a@.take(i0 + 1) =~= a@.take(i0).push(a@[i0]));
                    assert forall|v: u16|
                        out@.contains(v) == (a@.take(i as int).contains(v) != b@.take(
                            j as int,
                        ).contains(v)) by {
                        lemma_push_contains(out_pre, x, v);
                        lemma_push_contains(a@.take(i0), a@[i0], v);
                        if v == x && b@.take(j0).contains(v) {
                            let k = choose|k: int| 0 <= k < j0 && b@.take(j0)[k] == v;
                            assert(b@[k] == v);
                        }
                    }
                    assert forall|v: u16|
                        a@.take(i as int).contains(v) && b@.contains(v) implies b@.take(
                        j as int,
                    ).contains(v) by {
                        lemma_push_contains(a@.take(i0), a@[i0], v);
                    }
                    assert forall|p: int, q: int|
                        0 <= p < q < out@.len() implies out@[p] < out@[q] by {
                        if q == out@.len() - 1 {
                            assert(out_pre[p] <= out_pre.last());
                        }
                    }
                }
            } else {
                let x = b[j];
                proof {
                    assert(!a@.contains(x)) by {
                        if a@.contains(x) {
                            let k = choose|k: int| 0 <= k < a@.len() && a@[k] == x;
                            if k >= i0 {
                                assert(i0 < a@.len());
                                assert(a@[i0] <= a@[k]);
                            } else {
                                assert(a@.take(i0).contains(x)) by {
                                    assert(a@.take(i0)[k] == x);
                                }
                                assert(b@.contains(x)) by {
                                    assert(b@[j0] == x);
                                }
                                assert(b@.take(j0).contains(x));
                                let m = choose|m: int| 0 <= m < j0 && b@.take(j0)[m] == x;
                                assert(b@[m] < b@[j0]);
                            }
                        }
                    }
                }
                out.push(x);
                j = j + 1;
                proof {
                    assert(b@.take(j0 + 1) =~= b@.take(j0).push(b@[j0]));
                    assert forall|v: u16|
                        out@.contains(v) == (a@.take(i as int).contains(v) != b@.take(
                            j as int,
                        ).contains(v)) by {
                        lemma_push_contains(out_pre, x, v);
                        lemma_push_contains(b@.take(j0), b@[j0], v);
                        if v == x && a@.take(i0).contains(v) {
                            let k = choose|k: int| 0 <= k < i0 && a@.take(i0)[k] == v;
                            assert(a@[k] == v);
                        }
                    }
                    assert forall|v: u16|
                        b@.take(j as int).contains(v) && a@.contains(v) implies a@.take(
                        i as int,
                    ).contains(v) by {
                        lemma_push_contains(b@.take(j0), b@[j0], v);
                    }
                    assert forall|p: int, q: int|
                        0 <= p < q < out@.len() implies out@[p] < out@[q] by {
                        if q == out@.len() - 1 {
                            assert(out_pre[p] <= out_pre.last());
                        }
                    }
                }
            }
        }
    }
    proof {
        assert(a@.take(a@.len() as int) =~= a@);
        assert(b@.take(b@.len() as int) =~= b@);
    }
    out
}

/// Whether two sorted vectors share a value: a two-pointer walk that stops at
/// the first match.
pub(crate) fn arrays_intersect(a: &Vec<u16>, b: &Vec<u16>) -> (r: bool)
    requires
        sorted16(a@),
        sorted16(b@),
    ensures
        r == exists|v: u16| a@.contains(v) && b@.contains(v),
{
    let mut i: usize = 0;
    let mut j: usize = 0;
    while i < a.len() && j < b.len()
        invariant
            i <= a@.len(),
            j <= b@.len(),
            sorted16(a@),
            sorted16(b@),
            forall|v: u16| !(a@.take(i as int).contains(v) && b@.contains(v)),
            forall|v: u16| !(a@.contains(v) && b@.take(j as int).contains(v)),
        decreases a@.len() - i + b@.len() - j,
    {
        let ghost i0 = i as int;
        let ghost j0 = j as int;
        if a[i] == b[j] {
            proof {
                let x = a@[i0];
                assert(a@.contains(x)) by {
                    assert(a@[i0] == x);
                }
                assert(b@.contains(x)) by {
                    assert(b@[j0] == x);
                }
            }
            return true;
        } else if a[i] < b[j] {
            proof {
                let x = a@[i0];
                assert(a@.take(i0 + 1) =~= a@.take(i0).push(a@[i0]));
                assert(!b@.contains(x)) by {
                    if b@.contains(x) {
                        let k = choose|k: int| 0 <= k < b@.len() && b@[k] == x;
                        if k >= j0 {
                            assert(b@[j0] <= b@[k]);
                        } else {
                            assert(a@.contains(x)) by {
                                assert(a@[i0] == x);
                            }
                            assert(b@.take(j0).contains(x)) by {
                                assert(b@.take(j0)[k] == x);
                            }
                        }
                    }
                }
                assert forall|v: u16| !(a@.take(i0 + 1).contains(v) && b@.contains(v)) by {
                    lemma_push_contains(a@.take(i0), a@[i0], v);
                }
            }
            i = i + 1;
        } else {
            proof {
                let x = b@[j0];
                assert(b@.take(j0 + 1) =~= b@.take(j0).push(b@[j0]));
                assert(!a@.contains(x)) by {
                    if a@.contains(x) {
                        let k = choose|k: int| 0 <= k < a@.len() && a@[k] == x;
                        if k >= i0 {
                            assert(a@[i0] <= a@[k]);
                        } else {
                            assert(b@.contains(x)) by {
                                assert(b@[j0] == x);
                            }
                            assert(a@.take(i0).contains(x)) by {
                                assert(a@.take(i0)[k] == x);
                            }
                        }
                    }
                }
                assert forall|v: u16| !(a@.contains(v) && b@.take(j0 + 1).contains(v)) by {
                    lemma_push_contains(b@.take(j0), b@[j0], v);
                }
            }
            j = j + 1;
        }
    }
    proof {
        assert(a@.take(a@.len() as int) =~= a@);
        assert(b@.take(b@.len() as int) =~= b@);
        if i == a@.len() {
            assert forall|v: u16| !(a@.contains(v) && b@.contains(v)) by {
                assert(!(a@.take(i as int).contains(v) && b@.contains(v)));
            }
        } else {
            assert forall|v: u16| !(a@.contains(v) && b@.contains(v)) by {
                assert(!(a@.contains(v) && b@.take(j as int).contains(v)));
            }
        }
    }
    false
}

/// Whether every entry of `a` occurs in `b`.
pub(crate) fn arrays_subset(a: &Vec<u16>, b: &Vec<u16>) -> (r: bool)
    requires
        sorted16(a@),
        sorted16(b@),
    ensures
        r == forall|v: u16| a@.contains(v) ==> b@.contains(v),
{
    if a.len() > b.len() {
        proof {
            // More entries than the candidate superset: some entry is missing.
            if forall|v: u16| a@.contains(v) ==> b@.contains(v) {
                lemma_sorted16_sub_len(a@, b@);
            }
        }
        return false;
    }
    let mut i: usize = 0;
    while i < a.len()
        invariant
            i <= a@.len(),
            sorted16(a@),
            sorted16(b@),
            forall|k: int| 0 <= k < i ==> b@.contains(a@[k]),
        decreases a@.len() - i,
    {
        if !vec_contains_sorted(b, a[i]) {
            proof {
                assert(a@.contains(a@[i as int]) && !b@.contains(a@[i as int]));
            }
            return false;
        }
        i = i + 1;
    }
    proof {
        assert forall|v: u16| a@.contains(v) implies b@.contains(v) by {
            let k = choose|k: int| 0 <= k < a@.len() && a@[k] == v;
        }
    }
    true
}

} // verus!
