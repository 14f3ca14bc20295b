//! The adaptive container: a tagged variant over the sparse and dense
//! representations.
//!
//! The representation policy lives here: a sparse container that reaches
//! 4,096 elements after an insertion is promoted to a dense one, and a dense
//! result of a set operation that falls below 4,096 elements is demoted back.
//! Every conversion keeps the element sequence unchanged, so the results of
//! the set algebra do not depend on which representation held the operands.

use vstd::prelude::*;
use crate::array::{
    ArrayContainer, ARRAY_MAX_SIZE, merge_union, merge_intersect, merge_difference, merge_symdiff,
    arrays_intersect, arrays_subset,
};
use crate::bitmap::{BitmapContainer, WordOp, combine_words, bool_op};
use crate::seqs::{
    sorted16, count_le16, lemma_push_contains, lemma_sorted16_equal, lemma_sorted16_len,
    lemma_sorted16_member_bounds,
};

verus! {

pub enum Container {
    Array(ArrayContainer),
    Bitmap(BitmapContainer),
}

impl ArrayContainer {
    /// Whether this sparse container has grown past the threshold.
    pub(crate) fn should_upgrade(&self) -> (r: bool)
        ensures
            r == (self.elems().len() >= ARRAY_MAX_SIZE as int),
    {
        self.array.len() >= ARRAY_MAX_SIZE
    }

    /// Rebuilds this sparse container as a dense one with the same elements.
    pub(crate) fn upgrade(self) -> (r: BitmapContainer)
        requires
            self.wf(),
        ensures
            r.wf(),
            r.elems() == self.elems(),
    {
        let r = BitmapContainer::from_iter(&self.array);
        proof {
            r.lemma_contains_elems();
            assert forall|v: u16| r.elems().contains(v) <==> self.array@.contains(v) by {
                assert(r.contains_spec(v) == self.array@.contains(v));
            }
            lemma_sorted16_equal(r.elems(), self.array@);
        }
        r
    }

    /// Wraps this container in whichever representation its size calls for:
    /// dense exactly when the threshold is reached.
    pub(crate) fn to_best_container(self) -> (r: Container)
        requires
            self.wf(),
        ensures
            r.wf(),
            r.elems() == self.elems(),
            (r is Bitmap) <==> self.elems().len() >= ARRAY_MAX_SIZE as int,
    {
        if self.should_upgrade() {
            Container::Bitmap(self.upgrade())
        } else {
            Container::Array(self)
        }
    }
}

impl BitmapContainer {
    /// Whether this dense container has shrunk below the threshold.
    pub(crate) fn should_downgrade(&self) -> (r: bool)
        requires
            self.wf(),
        ensures
            r == (self.elems().len() < ARRAY_MAX_SIZE as int),
    {
        self.count < ARRAY_MAX_SIZE
    }

    /// Rebuilds this dense container as a sparse one with the same elements.
    pub(crate) fn downgrade(self) -> (r: ArrayContainer)
        requires
            self.wf(),
        ensures
            r.wf(),
            r.elems() == self.elems(),
    {
        let array = self.to_vec();
        proof {
            self.lemma_contains_elems();
        }
        ArrayContainer { array }
    }

    /// Wraps this container in whichever representation its size calls for:
    /// dense exactly when the threshold is reached.
    pub(crate) fn to_best_container(self) -> (r: Container)
        requires
            self.wf(),
        ensures
            r.wf(),
            r.elems() == self.elems(),
            (r is Bitmap) <==> self.elems().len() >= ARRAY_MAX_SIZE as int,
    {
        if self.should_downgrade() {
            Container::Array(self.downgrade())
        } else {
            Container::Bitmap(self)
        }
    }

    /// Union with a sparse container: copy this bit-array, then set each of
    /// the array's values.
    pub(crate) fn union_with_array_container(&self, arr: &ArrayContainer) -> (r: BitmapContainer)
        requires
            self.wf(),
            arr.wf(),
        ensures
            r.wf(),
            forall|v: u16|
                r.contains_spec(v) == (self.contains_spec(v) || arr.contains_spec(v)),
    {
        let mut r = self.duplicate();
        let mut i: usize = 0;
        while i < arr.array.len()
            invariant
                i <= arr.array@.len(),
                r.wf(),
                forall|v: u16|
                    r.contains_spec(v) == (self.contains_spec(v) || arr.array@.take(
                        i as int,
                    ).contains(v)),
            decreases arr.array@.len() - i,
        {
            let x = arr.array[i];
            r.add(x);
            proof {
                assert(arr.array@.take(i + 1) =~= arr.array@.take(i as int).push(
                    arr.array@[i as int],
                ));
                assert forall|v: u16|
                    r.contains_spec(v) == (self.contains_spec(v) || arr.array@.take(
                        i + 1,
                    ).contains(v)) by {
                    lemma_push_contains(arr.array@.take(i as int), x, v);
                }
            }
            i = i + 1;
        }
        proof {
            assert(arr.array@.take(arr.array@.len() as int) =~= arr.array@);
        }
        r
    }

    /// Intersection with a sparse container: keep the array values whose bit
    /// is set here.
    pub(crate) fn intersect_with_array_container(&self, arr: &ArrayContainer) -> (r: ArrayContainer)
        requires
            self.wf(),
            arr.wf(),
        ensures
            r.wf(),
            r.elems().len() <= arr.elems().len(),
            forall|v: u16|
                r.contains_spec(v) == (arr.contains_spec(v) && self.contains_spec(v)),
    {
        let mut out: Vec<u16> = Vec::new();
        let mut i: usize = 0;
        while i < arr.array.len()
            invariant
                i <= arr.array@.len(),
                self.wf(),
                arr.wf(),
                sorted16(out@),
                out@.len() <= i,
                forall|v: u16|
                    #[trigger] out@.contains(v) == (arr.array@.take(i as int).contains(v)
                        && self.contains_spec(v)),
                forall|k: int|
                    i <= k < arr.array@.len() ==> out@.len() == 0 || out@.last()
                        < arr.array@[k],
            decreases arr.array@.len() - i,
        {
            let x = arr.array[i];
            if self.contains(x) {
                let ghost out_pre = out@;
                out.push(x);
                proof {
                    assert(arr.array@.take(i + 1) =~= arr.array@.take(i as int).push(
                        arr.array@[i as int],
                    ));
                    assert forall|v: u16|
                        #[trigger] out@.contains(v) == (arr.array@.take(i + 1).contains(v)
                            && self.contains_spec(v)) by {
                        lemma_push_contains(out_pre, x, v);
                        lemma_push_contains(arr.array@.take(i as int), x, v);
                        assert(out_pre.contains(v) == (arr.array@.take(i as int).contains(v)
                            && self.contains_spec(v)));
                    }
                    assert forall|p: int, q: int|
                        0 <= p < q < out@.len() implies out@[p] < out@[q] by {
                        if q == out@.len() - 1 {
                            assert(out_pre[p] <= out_pre.last());
                        }
                    }
                }
            } else {
                proof {
                    assert(arr.array@.take(i + 1) =~= arr.array@.take(i as int).push(
                        arr.array@[i as int],
                    ));
                    assert forall|v: u16|
                        #[trigger] out@.contains(v) == (arr.array@.take(i + 1).contains(v)
                            && self.contains_spec(v)) by {
                        lemma_push_contains(arr.array@.take(i as int), x, v);
                        assert(out@.contains(v) == (arr.array@.take(i as int).contains(v)
                            && self.contains_spec(v)));
                    }
                }
            }
            i = i + 1;
        }
        proof {
            assert(arr.array@.take(arr.array@.len() as int) =~= arr.array@);
        }
        ArrayContainer { array: out }
    }

    /// Whether this dense container shares an element with a sparse one:
    /// probe each array value's bit.
    pub(crate) fn intersects_with_array_container(&self, arr: &ArrayContainer) -> (r: bool)
        requires
            self.wf(),
            arr.wf(),
        ensures
            r == exists|v: u16| self.contains_spec(v) && arr.contains_spec(v),
    {
        let mut i: usize = 0;
        while i < arr.array.len()
            invariant
                i <= arr.array@.len(),
                self.wf(),
                arr.wf(),
                forall|k: int| 0 <= k < i ==> !self.contains_spec(arr.array@[k]),
            decreases arr.array@.len() - i,
        {
            let x = arr.array[i];
            if self.contains(x) {
                proof {
                    assert(arr.array@.contains(x)) by {
                        assert(arr.array@[i as int] == x);
                    }
                }
                return true;
            }
            i = i + 1;
        }
        proof {
            assert forall|v: u16| !(self.contains_spec(v) && arr.contains_spec(v)) by {
                if arr.array@.contains(v) {
                    let k = choose|k: int| 0 <= k < arr.array@.len() && arr.array@[k] == v;
                }
            }
        }
        false
    }
}

/// Whether the value ranges of two non-empty containers overlap: the larger
/// minimum does not exceed the smaller maximum. Containers whose ranges are
/// disjoint cannot share an element.
pub(crate) fn has_overlap(container_a: &Container, container_b: &Container) -> (r: bool)
    requires
        container_a.wf(),
        container_b.wf(),
        container_a.elems().len() > 0,
        container_b.elems().len() > 0,
    ensures
        r == (container_a.elems()[0] <= container_b.elems().last()
            && container_b.elems()[0] <= container_a.elems().last()),
        !r ==> !exists|v: u16| container_a.contains_spec(v) && container_b.contains_spec(v),
{
    let a_min = match container_a.minimum() {
        Some(m) => m,
        None => 0,
    };
    let a_max = match container_a.maximum() {
        Some(m) => m,
        None => 0,
    };
    let b_min = match container_b.minimum() {
        Some(m) => m,
        None => 0,
    };
    let b_max = match container_b.maximum() {
        Some(m) => m,
        None => 0,
    };
    let lo = if a_min >= b_min {
        a_min
    } else {
        b_min
    };
    let hi = if a_max <= b_max {
        a_max
    } else {
        b_max
    };
    let r = lo <= hi;
    proof {
        if !r {
            container_a.lemma_elems();
            container_b.lemma_elems();
            assert forall|v: u16|
                !(container_a.contains_spec(v) && container_b.contains_spec(v)) by {
                if container_a.contains_spec(v) && container_b.contains_spec(v) {
                    lemma_sorted16_member_bounds(container_a.elems(), v);
                    lemma_sorted16_member_bounds(container_b.elems(), v);
                }
            }
        }
    }
    r
}

impl Container {
    pub open spec fn elems(&self) -> Seq<u16> {
        match self {
            Container::Array(a) => a.elems(),
            Container::Bitmap(b) => b.elems(),
        }
    }

    /// Well-formed: the payload is well-formed, and a sparse payload respects
    /// the promotion threshold.
    pub open spec fn wf(&self) -> bool {
        match self {
            Container::Array(a) => a.wf() && a.elems().len() < ARRAY_MAX_SIZE as int,
            Container::Bitmap(b) => b.wf(),
        }
    }

    pub open spec fn contains_spec(&self, value: u16) -> bool {
        self.elems().contains(value)
    }

    /// The element sequence of a well-formed container is strictly ascending
    /// and bounded by the value domain.
    pub proof fn lemma_elems(&self)
        requires
            self.wf(),
        ensures
            sorted16(self.elems()),
            self.elems().len() <= 0x10000,
    {
        match self {
            Container::Array(a) => {
                lemma_sorted16_len(a.array@);
            }
            Container::Bitmap(b) => {
                b.lemma_contains_elems();
            }
        }
    }

    pub(crate) fn duplicate(&self) -> (r: Container)
        requires
            self.wf(),
        ensures
            r.wf(),
            r.elems() == self.elems(),
    {
        match self {
            Container::Array(a) => Container::Array(a.duplicate()),
            Container::Bitmap(b) => Container::Bitmap(b.duplicate()),
        }
    }

    pub(crate) fn cardinality(&self) -> (r: usize)
        requires
            self.wf(),
        ensures
            r == self.elems().len(),
    {
        match self {
            Container::Array(a) => a.cardinality(),
            Container::Bitmap(b) => b.cardinality(),
        }
    }

    pub(crate) fn is_empty(&self) -> (r: bool)
        requires
            self.wf(),
        ensures
            r == (self.elems().len() == 0),
    {
        match self {
            Container::Array(a) => a.is_empty(),
            Container::Bitmap(b) => b.is_empty(),
        }
    }

    pub(crate) fn contains(&self, value: u16) -> (r: bool)
        requires
            self.wf(),
        ensures
            r == self.contains_spec(value),
    {
        match self {
            Container::Array(a) => a.contains(value),
            Container::Bitmap(b) => {
                proof {
                    b.lemma_contains_elems();
                }
                b.contains(value)
            }
        }
    }

    /// Adds a value; a sparse container that reaches the threshold is
    /// promoted to a dense one.
    pub(crate) fn add(&mut self, value: u16) -> (added: bool)
        requires
            old(self).wf(),
        ensures
            final(self).wf(),
            added == !old(self).contains_spec(value),
            forall|v: u16|
                final(self).contains_spec(v) == (old(self).contains_spec(v) || v == value),
            final(self).elems().len() == old(self).elems().len() + if added {
                1int
            } else {
                0int
            },
    {
        match self {
            Container::Array(a) => {
                let ghost pre = a.elems();
                let added = a.add(value);
                let ghost mid = a.elems();
                proof {
                    assert(old(self).elems() == pre);
                    assert forall|v: u16| mid.contains(v) == (pre.contains(v) || v == value) by {
                        assert(a.contains_spec(v) == (pre.contains(v) || v == value));
                    }
                }
                if a.should_upgrade() {
                    let upgraded = a.duplicate().upgrade();
                    proof {
                        assert(upgraded.elems() == mid);
                    }
                    *self = Container::Bitmap(upgraded);
                }
                proof {
                    assert(self.elems() == mid);
                    assert forall|v: u16|
                        self.contains_spec(v) == (old(self).contains_spec(v) || v == value) by {
                        assert(mid.contains(v) == (pre.contains(v) || v == value));
                    }
                }
                added
            }
            Container::Bitmap(b) => {
                let ghost pre = b.elems();
                proof {
                    b.lemma_contains_elems();
                }
                let added = b.add(value);
                proof {
                    b.lemma_contains_elems();
                    assert forall|v: u16|
                        self.contains_spec(v) == (old(self).contains_spec(v) || v == value) by {
                        assert(b.contains_spec(v) == (pre.contains(v) || v == value));
                    }
                }
                added
            }
        }
    }

    /// Removes a value. Removal never demotes a dense container: only the
    /// results of set operations are re-selected.
    pub(crate) fn remove(&mut self, value: u16) -> (removed: bool)
        requires
            old(self).wf(),
        ensures
            final(self).wf(),
            removed == old(self).contains_spec(value),
            forall|v: u16|
                final(self).contains_spec(v) == (old(self).contains_spec(v) && v != value),
            old(self).elems().len() == final(self).elems().len() + if removed {
                1int
            } else {
                0int
            },
    {
        match self {
            Container::Array(a) => {
                let ghost pre = a.elems();
                let removed = a.remove(value);
                proof {
                    assert(old(self).elems() == pre);
                    assert forall|v: u16|
                        self.contains_spec(v) == (old(self).contains_spec(v) && v != value) by {
                        assert(a.contains_spec(v) == (pre.contains(v) && v != value));
                    }
                }
                removed
            }
            Container::Bitmap(b) => {
                let ghost pre = b.elems();
                proof {
                    b.lemma_contains_elems();
                }
                let removed = b.remove(value);
                proof {
                    b.lemma_contains_elems();
                    assert forall|v: u16|
                        self.contains_spec(v) == (old(self).contains_spec(v) && v != value) by {
                        assert(b.contains_spec(v) == (pre.contains(v) && v != value));
                    }
                }
                removed
            }
        }
    }

    /// Removes every listed value, in any order; returns how many were
    /// present.
    pub(crate) fn remove_values(&mut self, values: &Vec<u16>) -> (removed: usize)
        requires
            old(self).wf(),
        ensures
            final(self).wf(),
            forall|v: u16|
                final(self).contains_spec(v) == (old(self).contains_spec(v) && !values@.contains(
                    v,
                )),
            old(self).elems().len() == final(self).elems().len() + removed,
    {
        match self {
            Container::Array(a) => {
                let ghost pre = a.elems();
                let removed = a.remove_values(values);
                proof {
                    assert(old(self).elems() == pre);
                    assert forall|v: u16|
                        self.contains_spec(v) == (old(self).contains_spec(v)
                            && !values@.contains(v)) by {
                        assert(a.contains_spec(v) == (pre.contains(v) && !values@.contains(v)));
                    }
                }
                removed
            }
            Container::Bitmap(b) => {
                let ghost pre = b.elems();
                proof {
                    b.lemma_contains_elems();
                }
                let removed = b.remove_values(values);
                proof {
                    b.lemma_contains_elems();
                    assert forall|v: u16|
                        self.contains_spec(v) == (old(self).contains_spec(v)
                            && !values@.contains(v)) by {
                        assert(b.contains_spec(v) == (pre.contains(v) && !values@.contains(v)));
                    }
                }
                removed
            }
        }
    }

    pub(crate) fn minimum(&self) -> (r: Option<u16>)
        requires
            self.wf(),
        ensures
            r == if self.elems().len() == 0 {
                Option::<u16>::None
            } else {
                Option::<u16>::Some(self.elems()[0])
            },
    {
        match self {
            Container::Array(a) => a.minimum(),
            Container::Bitmap(b) => b.minimum(),
        }
    }

    pub(crate) fn maximum(&self) -> (r: Option<u16>)
        requires
            self.wf(),
        ensures
            r == if self.elems().len() == 0 {
                Option::<u16>::None
            } else {
                Option::<u16>::Some(self.elems().last())
            },
    {
        match self {
            Container::Array(a) => a.maximum(),
            Container::Bitmap(b) => b.maximum(),
        }
    }

    pub(crate) fn select(&self, idx: usize) -> (r: Option<u16>)
        requires
            self.wf(),
        ensures
            r == if idx < self.elems().len() {
                Option::<u16>::Some(self.elems()[idx as int])
            } else {
                Option::<u16>::None
            },
    {
        match self {
            Container::Array(a) => a.select(idx),
            Container::Bitmap(b) => b.select(idx),
        }
    }

    /// Number of elements that do not exceed `value`.
    pub(crate) fn rank(&self, value: u16) -> (r: usize)
        requires
            self.wf(),
        ensures
            r == count_le16(self.elems(), value),
    {
        match self {
            Container::Array(a) => a.rank(value),
            Container::Bitmap(b) => b.rank(value),
        }
    }

    /// The elements in ascending order.
    pub(crate) fn to_vec(&self) -> (r: Vec<u16>)
        requires
            self.wf(),
        ensures
            r@ == self.elems(),
    {
        match self {
            Container::Array(a) => a.to_vec(),
            Container::Bitmap(b) => b.to_vec(),
        }
    }
}

/// Entries of `a` whose bit is clear in `b`.
fn array_minus_bitmap(a: &ArrayContainer, b: &BitmapContainer) -> (r: ArrayContainer)
    requires
        a.wf(),
        b.wf(),
    ensures
        r.wf(),
        r.elems().len() <= a.elems().len(),
        forall|v: u16| #[trigger] r.contains_spec(v) == (a.contains_spec(v) && !b.contains_spec(v)),
{
    let mut out: Vec<u16> = Vec::new();
    let mut i: usize = 0;
    while i < a.array.len()
        invariant
            i <= a.array@.len(),
            a.wf(),
            b.wf(),
            sorted16(out@),
            out@.len() <= i,
            forall|v: u16|
                #[trigger] out@.contains(v) == (a.array@.take(i as int).contains(v)
                    && !b.contains_spec(v)),
            forall|k: int| i <= k < a.array@.len() ==> out@.len() == 0 || out@.last() < a.array@[k],
        decreases a.array@.len() - i,
    {
        let x = a.array[i];
        if !b.contains(x) {
            let ghost out_pre = out@;
            out.push(x);
            proof {
                assert(a.array@.take(i + 1) =~= a.array@.take(i as int).push(a.array@[i as int]));
                assert forall|v: u16|
                    #[trigger] out@.contains(v) == (a.array@.take(i + 1).contains(v)
                        && !b.contains_spec(v)) by {
                    lemma_push_contains(out_pre, x, v);
                    lemma_push_contains(a.array@.take(i as int), x, v);
                    assert(out_pre.contains(v) == (a.array@.take(i as int).contains(v)
                        && !b.contains_spec(v)));
                }
                assert forall|p: int, q: int| 0 <= p < q < out@.len() implies out@[p] < out@[q] by {
                    if q == out@.len() - 1 {
                        assert(out_pre[p] <= out_pre.last());
                    }
                }
            }
        } else {
            proof {
                assert(a.array@.take(i + 1) =~= a.array@.take(i as int).push(a.array@[i as int]));
                assert forall|v: u16|
                    #[trigger] out@.contains(v) == (a.array@.take(i + 1).contains(v)
                        && !b.contains_spec(v)) by {
                    lemma_push_contains(a.array@.take(i as int), x, v);
                    assert(out@.contains(v) == (a.array@.take(i as int).contains(v)
                        && !b.contains_spec(v)));
                }
            }
        }
        i = i + 1;
    }
    proof {
        assert(a.array@.take(a.array@.len() as int) =~= a.array@);
    }
    ArrayContainer { array: out }
}

/// Whether every entry of `a` has its bit set in `b`.
fn array_subset_bitmap(a: &ArrayContainer, b: &BitmapContainer) -> (r: bool)
    requires
        a.wf(),
        b.wf(),
    ensures
        r == forall|v: u16| a.contains_spec(v) ==> b.contains_spec(v),
{
    let mut i: usize = 0;
    while i < a.array.len()
        invariant
            i <= a.array@.len(),
            a.wf(),
            b.wf(),
            forall|k: int| 0 <= k < i ==> b.contains_spec(a.array@[k]),
        decreases a.array@.len() - i,
    {
        let x = a.array[i];
        if !b.contains(x) {
            proof {
                assert(a.contains_spec(x)) by {
                    assert(a.array@[i as int] == x);
                }
            }
            return false;
        }
        i = i + 1;
    }
    proof {
        assert forall|v: u16| a.contains_spec(v) implies b.contains_spec(v) by {
            let k = choose|k: int| 0 <= k < a.array@.len() && a.array@[k] == v;
        }
    }
    true
}

impl Container {
    /// The union of two containers. A union of two sparse containers is
    /// promoted exactly when the merged size reaches the threshold; a union
    /// with a dense operand is dense.
    pub(crate) fn union(&self, other: &Container) -> (r: Container)
        requires
            self.wf(),
            other.wf(),
        ensures
            r.wf(),
            forall|v: u16|
                #[trigger] r.contains_spec(v) == (self.contains_spec(v) || other.contains_spec(
                    v,
                )),
            (self is Bitmap || other is Bitmap) ==> r is Bitmap,
            (self is Array && other is Array) ==> ((r is Bitmap) <==> r.elems().len()
                >= ARRAY_MAX_SIZE as int),
    {
        match (self, other) {
            (Container::Array(a), Container::Array(b)) => {
                let merged = merge_union(&a.array, &b.array);
                if merged.len() >= ARRAY_MAX_SIZE {
                    let bm = BitmapContainer::from_iter(&merged);
                    proof {
                        bm.lemma_contains_elems();
                        assert forall|v: u16|
                            #[trigger] bm.elems().contains(v) == (self.contains_spec(v)
                                || other.contains_spec(v)) by {
                            assert(bm.contains_spec(v) == merged@.contains(v));
                            assert(merged@.contains(v) == (a.array@.contains(v)
                                || b.array@.contains(v)));
                        }
                        assert forall|v: u16| bm.elems().contains(v) <==> merged@.contains(v) by {
                            assert(bm.contains_spec(v) == merged@.contains(v));
                        }
                        lemma_sorted16_equal(bm.elems(), merged@);
                    }
                    Container::Bitmap(bm)
                } else {
                    Container::Array(ArrayContainer { array: merged })
                }
            }
            (Container::Array(a), Container::Bitmap(b)) => {
                let bm = b.union_with_array_container(a);
                proof {
                    bm.lemma_contains_elems();
                    b.lemma_contains_elems();
                    assert forall|v: u16|
                        #[trigger] bm.elems().contains(v) == (self.contains_spec(v)
                            || other.contains_spec(v)) by {
                        assert(bm.contains_spec(v) == (b.contains_spec(v) || a.contains_spec(v)));
                    }
                }
                Container::Bitmap(bm)
            }
            (Container::Bitmap(a), Container::Array(b)) => {
                let bm = a.union_with_array_container(b);
                proof {
                    bm.lemma_contains_elems();
                    a.lemma_contains_elems();
                    assert forall|v: u16|
                        #[trigger] bm.elems().contains(v) == (self.contains_spec(v)
                            || other.contains_spec(v)) by {
                        assert(bm.contains_spec(v) == (a.contains_spec(v) || b.contains_spec(v)));
                    }
                }
                Container::Bitmap(bm)
            }
            (Container::Bitmap(a), Container::Bitmap(b)) => {
                let bm = combine_words(&a.words, &b.words, WordOp::Or);
                proof {
                    bm.lemma_contains_elems();
                    a.lemma_contains_elems();
                    b.lemma_contains_elems();
                    assert forall|v: u16|
                        #[trigger] bm.elems().contains(v) == (self.contains_spec(v)
                            || other.contains_spec(v)) by {
                        assert(bm.contains_spec(v) == bool_op(
                            WordOp::Or,
                            crate::bitmap::seq_bit(a.words@, v as int),
                            crate::bitmap::seq_bit(b.words@, v as int),
                        ));
                        assert(a.contains_spec(v) == crate::bitmap::seq_bit(a.words@, v as int));
                        assert(b.contains_spec(v) == crate::bitmap::seq_bit(b.words@, v as int));
                    }
                }
                Container::Bitmap(bm)
            }
        }
    }

    /// The intersection of two non-empty containers; disjoint value ranges
    /// short-circuit to an empty result. The result is dense exactly when it
    /// reaches the threshold.
    pub(crate) fn intersect(&self, other: &Container) -> (r: Container)
        requires
            self.wf(),
            other.wf(),
            self.elems().len() > 0,
            other.elems().len() > 0,
        ensures
            r.wf(),
            forall|v: u16|
                #[trigger] r.contains_spec(v) == (self.contains_spec(v) && other.contains_spec(
                    v,
                )),
            (r is Array) <==> (r.elems().len() < ARRAY_MAX_SIZE as int),
    {
        if !has_overlap(self, other) {
            let empty = ArrayContainer::new();
            proof {
                assert forall|v: u16|
                    #[trigger] empty.elems().contains(v) == (self.contains_spec(v)
                        && other.contains_spec(v)) by {
                    assert(!(self.contains_spec(v) && other.contains_spec(v)));
                }
            }
            return Container::Array(empty);
        }
        match (self, other) {
            (Container::Array(a), Container::Array(b)) => {
                let merged = merge_intersect(&a.array, &b.array);
                Container::Array(ArrayContainer { array: merged })
            }
            (Container::Array(a), Container::Bitmap(b)) => {
                let out = b.intersect_with_array_container(a);
                proof {
                    b.lemma_contains_elems();
                    assert forall|v: u16|
                        #[trigger] out.elems().contains(v) == (self.contains_spec(v)
                            && other.contains_spec(v)) by {
                        assert(out.contains_spec(v) == (a.contains_spec(v) && b.contains_spec(
                            v,
                        )));
                    }
                }
                Container::Array(out)
            }
            (Container::Bitmap(a), Container::Array(b)) => {
                let out = a.intersect_with_array_container(b);
                proof {
                    a.lemma_contains_elems();
                    assert forall|v: u16|
                        #[trigger] out.elems().contains(v) == (self.contains_spec(v)
                            && other.contains_spec(v)) by {
                        assert(out.contains_spec(v) == (b.contains_spec(v) && a.contains_spec(
                            v,
                        )));
                    }
                }
                Container::Array(out)
            }
            (Container::Bitmap(a), Container::Bitmap(b)) => {
                let bm = combine_words(&a.words, &b.words, WordOp::And);
                let ghost bm_elems = bm.elems();
                proof {
                    bm.lemma_contains_elems();
                    a.lemma_contains_elems();
                    b.lemma_contains_elems();
                    assert forall|v: u16|
                        #[trigger] bm_elems.contains(v) == (self.contains_spec(v)
                            && other.contains_spec(v)) by {
                        assert(bm.contains_spec(v) == bool_op(
                            WordOp::And,
                            crate::bitmap::seq_bit(a.words@, v as int),
                            crate::bitmap::seq_bit(b.words@, v as int),
                        ));
                        assert(a.contains_spec(v) == crate::bitmap::seq_bit(a.words@, v as int));
                        assert(b.contains_spec(v) == crate::bitmap::seq_bit(b.words@, v as int));
                    }
                }
                let r = bm.to_best_container();
                proof {
                    assert(r.elems() == bm_elems);
                }
                r
            }
        }
    }

    /// The elements of `self` that are not in `other`. The result is dense
    /// exactly when it reaches the threshold.
    pub(crate) fn difference(&self, other: &Container) -> (r: Container)
        requires
            self.wf(),
            other.wf(),
        ensures
            r.wf(),
            forall|v: u16|
                #[trigger] r.contains_spec(v) == (self.contains_spec(v) && !other.contains_spec(
                    v,
                )),
            (r is Array) <==> (r.elems().len() < ARRAY_MAX_SIZE as int),
    {
        match (self, other) {
            (Container::Array(a), Container::Array(b)) => {
                let merged = merge_difference(&a.array, &b.array);
                Container::Array(ArrayContainer { array: merged })
            }
            (Container::Array(a), Container::Bitmap(b)) => {
                let out = array_minus_bitmap(a, b);
                proof {
                    b.lemma_contains_elems();
                    assert forall|v: u16|
                        #[trigger] out.elems().contains(v) == (self.contains_spec(v)
                            && !other.contains_spec(v)) by {
                        assert(out.contains_spec(v) == (a.contains_spec(v) && !b.contains_spec(
                            v,
                        )));
                    }
                }
                Container::Array(out)
            }
            (Container::Bitmap(a), Container::Array(b)) => {
                let avec = a.to_vec();
                proof {
                    a.lemma_contains_elems();
                }
                let merged = merge_difference(&avec, &b.array);
                let out = ArrayContainer { array: merged };
                let ghost out_elems = out.elems();
                proof {
                    assert forall|v: u16|
                        #[trigger] out_elems.contains(v) == (self.contains_spec(v)
                            && !other.contains_spec(v)) by {
                        assert(merged@.contains(v) == (avec@.contains(v) && !b.array@.contains(
                            v,
                        )));
                    }
                }
                let r = out.to_best_container();
                proof {
                    assert(r.elems() == out_elems);
                }
                r
            }
            (Container::Bitmap(a), Container::Bitmap(b)) => {
                let bm = combine_words(&a.words, &b.words, WordOp::AndNot);
                let ghost bm_elems = bm.elems();
                proof {
                    bm.lemma_contains_elems();
                    a.lemma_contains_elems();
                    b.lemma_contains_elems();
                    assert forall|v: u16|
                        #[trigger] bm_elems.contains(v) == (self.contains_spec(v)
                            && !other.contains_spec(v)) by {
                        assert(bm.contains_spec(v) == bool_op(
                            WordOp::AndNot,
                            crate::bitmap::seq_bit(a.words@, v as int),
                            crate::bitmap::seq_bit(b.words@, v as int),
                        ));
                        assert(a.contains_spec(v) == crate::bitmap::seq_bit(a.words@, v as int));
                        assert(b.contains_spec(v) == crate::bitmap::seq_bit(b.words@, v as int));
                    }
                }
                let r = bm.to_best_container();
                proof {
                    assert(r.elems() == bm_elems);
                }
                r
            }
        }
    }

    /// The elements in exactly one of the two containers. The result is
    /// dense exactly when it reaches the threshold.
    pub(crate) fn symmetric_difference(&self, other: &Container) -> (r: Container)
        requires
            self.wf(),
            other.wf(),
        ensures
            r.wf(),
            forall|v: u16|
                #[trigger] r.contains_spec(v) == (self.contains_spec(v) != other.contains_spec(
                    v,
                )),
            (r is Array) <==> (r.elems().len() < ARRAY_MAX_SIZE as int),
    {
        match (self, other) {
            (Container::Array(a), Container::Array(b)) => {
                let merged = merge_symdiff(&a.array, &b.array);
                let out = ArrayContainer { array: merged };
                let ghost out_elems = out.elems();
                let r = out.to_best_container();
                proof {
                    assert(r.elems() == out_elems);
                }
                r
            }
            (Container::Array(a), Container::Bitmap(b)) => {
                let bvec = b.to_vec();
                proof {
                    b.lemma_contains_elems();
                }
                let merged = merge_symdiff(&a.array, &bvec);
                let out = ArrayContainer { array: merged };
                let ghost out_elems = out.elems();
                proof {
                    assert forall|v: u16|
                        #[trigger] out_elems.contains(v) == (self.contains_spec(v)
                            != other.contains_spec(v)) by {
                        assert(merged@.contains(v) == (a.array@.contains(v) != bvec@.contains(
                            v,
                        )));
                    }
                }
                let r = out.to_best_container();
                proof {
                    assert(r.elems() == out_elems);
                }
                r
            }
            (Container::Bitmap(a), Container::Array(b)) => {
                let avec = a.to_vec();
                proof {
                    a.lemma_contains_elems();
                }
                let merged = merge_symdiff(&avec, &b.array);
                let out = ArrayContainer { array: merged };
                let ghost out_elems = out.elems();
                proof {
                    assert forall|v: u16|
                        #[trigger] out_elems.contains(v) == (self.contains_spec(v)
                            != other.contains_spec(v)) by {
                        assert(merged@.contains(v) == (avec@.contains(v) != b.array@.contains(
                            v,
                        )));
                    }
                }
                let r = out.to_best_container();
                proof {
                    assert(r.elems() == out_elems);
                }
                r
            }
            (Container::Bitmap(a), Container::Bitmap(b)) => {
                let bm = combine_words(&a.words, &b.words, WordOp::Xor);
                let ghost bm_elems = bm.elems();
                proof {
                    bm.lemma_contains_elems();
                    a.lemma_contains_elems();
                    b.lemma_contains_elems();
                    assert forall|v: u16|
                        #[trigger] bm_elems.contains(v) == (self.contains_spec(v)
                            != other.contains_spec(v)) by {
                        assert(bm.contains_spec(v) == bool_op(
                            WordOp::Xor,
                            crate::bitmap::seq_bit(a.words@, v as int),
                            crate::bitmap::seq_bit(b.words@, v as int),
                        ));
                        assert(a.contains_spec(v) == crate::bitmap::seq_bit(a.words@, v as int));
                        assert(b.contains_spec(v) == crate::bitmap::seq_bit(b.words@, v as int));
                    }
                }
                let r = bm.to_best_container();
                proof {
                    assert(r.elems() == bm_elems);
                }
                r
            }
        }
    }

    /// Whether two non-empty containers share an element; disjoint value
    /// ranges short-circuit to `false`.
    pub(crate) fn intersects(&self, other: &Container) -> (r: bool)
        requires
            self.wf(),
            other.wf(),
            self.elems().len() > 0,
            other.elems().len() > 0,
        ensures
            r == exists|v: u16| self.contains_spec(v) && other.contains_spec(v),
    {
        if !has_overlap(self, other) {
            return false;
        }
        match (self, other) {
            (Container::Array(a), Container::Array(b)) => {
                let r = arrays_intersect(&a.array, &b.array);
                proof {
                    if r {
                        let v = choose|v: u16| a.array@.contains(v) && b.array@.contains(v);
                        assert(self.contains_spec(v) && other.contains_spec(v));
                    } else {
                        assert forall|v: u16|
                            !(self.contains_spec(v) && other.contains_spec(v)) by {
                            assert(!(a.array@.contains(v) && b.array@.contains(v)));
                        }
                    }
                }
                r
            }
            (Container::Array(a), Container::Bitmap(b)) => {
                let r = b.intersects_with_array_container(a);
                proof {
                    b.lemma_contains_elems();
                    if r {
                        let v = choose|v: u16| b.contains_spec(v) && a.contains_spec(v);
                        assert(self.contains_spec(v) && other.contains_spec(v));
                    } else {
                        assert forall|v: u16|
                            !(self.contains_spec(v) && other.contains_spec(v)) by {
                            assert(!(b.contains_spec(v) && a.contains_spec(v)));
                        }
                    }
                }
                r
            }
            (Container::Bitmap(a), Container::Array(b)) => {
                let r = a.intersects_with_array_container(b);
                proof {
                    a.lemma_contains_elems();
                    if r {
                        let v = choose|v: u16| a.contains_spec(v) && b.contains_spec(v);
                        assert(self.contains_spec(v) && other.contains_spec(v));
                    } else {
                        assert forall|v: u16|
                            !(self.contains_spec(v) && other.contains_spec(v)) by {
                            assert(!(a.contains_spec(v) && b.contains_spec(v)));
                        }
                    }
                }
                r
            }
            (Container::Bitmap(a), Container::Bitmap(b)) => {
                let r = a.intersects_bitmap(b);
                proof {
                    a.lemma_contains_elems();
                    b.lemma_contains_elems();
                    if r {
                        let v = choose|v: u16| a.contains_spec(v) && b.contains_spec(v);
                        assert(self.contains_spec(v) && other.contains_spec(v));
                    } else {
                        assert forall|v: u16|
                            !(self.contains_spec(v) && other.contains_spec(v)) by {
                            assert(!(a.contains_spec(v) && b.contains_spec(v)));
                        }
                    }
                }
                r
            }
        }
    }

    /// Whether every element of `self` is also in `other`.
    pub(crate) fn is_subset(&self, other: &Container) -> (r: bool)
        requires
            self.wf(),
            other.wf(),
        ensures
            r == forall|v: u16| self.contains_spec(v) ==> other.contains_spec(v),
    {
        match (self, other) {
            (Container::Array(a), Container::Array(b)) => {
                let r = arrays_subset(&a.array, &b.array);
                proof {
                    if r {
                        assert forall|v: u16|
                            self.contains_spec(v) implies other.contains_spec(v) by {
                            assert(a.array@.contains(v) ==> b.array@.contains(v));
                        }
                    } else {
                        let v = choose|v: u16| a.array@.contains(v) && !b.array@.contains(v);
                        assert(self.contains_spec(v) && !other.contains_spec(v));
                    }
                }
                r
            }
            (Container::Array(a), Container::Bitmap(b)) => {
                let r = array_subset_bitmap(a, b);
                proof {
                    b.lemma_contains_elems();
                    if r {
                        assert forall|v: u16|
                            self.contains_spec(v) implies other.contains_spec(v) by {
                            assert(a.contains_spec(v) ==> b.contains_spec(v));
                        }
                    } else {
                        let v = choose|v: u16| a.contains_spec(v) && !b.contains_spec(v);
                        assert(self.contains_spec(v) && !other.contains_spec(v));
                    }
                }
                r
            }
            (Container::Bitmap(a), Container::Array(b)) => {
                if a.cardinality() > b.cardinality() {
                    proof {
                        a.lemma_contains_elems();
                        if forall|v: u16| self.contains_spec(v) ==> other.contains_spec(v) {
                            assert forall|v: u16|
                                a.elems().contains(v) implies b.array@.contains(v) by {
                                assert(self.contains_spec(v) ==> other.contains_spec(v));
                            }
                            crate::array::lemma_sorted16_sub_len(a.elems(), b.array@);
                        }
                    }
                    return false;
                }
                proof {
                    a.lemma_contains_elems();
                }
                let avec = a.to_vec();
                let r = arrays_subset(&avec, &b.array);
                proof {
                    if r {
                        assert forall|v: u16|
                            self.contains_spec(v) implies other.contains_spec(v) by {
                            assert(avec@.contains(v) ==> b.array@.contains(v));
                        }
                    } else {
                        let v = choose|v: u16| avec@.contains(v) && !b.array@.contains(v);
                        assert(self.contains_spec(v) && !other.contains_spec(v));
                    }
                }
                r
            }
            (Container::Bitmap(a), Container::Bitmap(b)) => {
                let r = a.is_subset_bitmap(b);
                proof {
                    a.lemma_contains_elems();
                    b.lemma_contains_elems();
                    if r {
                        assert forall|v: u16|
                            self.contains_spec(v) implies other.contains_spec(v) by {
                            assert(a.contains_spec(v) ==> b.contains_spec(v));
                        }
                    } else {
                        let v = choose|v: u16| a.contains_spec(v) && !b.contains_spec(v);
                        assert(self.contains_spec(v) && !other.contains_spec(v));
                    }
                }
                r
            }
        }
    }
}

} // verus!
