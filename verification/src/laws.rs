//! Laws relating the bitmap operations, stated over the model sequences.
//!
//! Every operation's contract pins its result's membership and order, so the
//! algebraic laws below are consequences that hold for any values produced by
//! those operations. Each law takes the membership facts that the operations'
//! contracts supply and concludes an equality or equivalence of the models.

use vstd::prelude::*;
use crate::array::ArrayContainer;
use crate::bitmap::BitmapContainer;
use crate::seqs::{sorted32, lemma_sorted32_equal, lemma_sorted16_equal};

verus! {

/// Every member of `a` is a member of `b`.
pub open spec fn subset_of(a: Seq<u32>, b: Seq<u32>) -> bool {
    forall|n: u32| a.contains(n) ==> b.contains(n)
}

/// Adding an element twice is the same as adding it once: if `b` is `a` with
/// `x` added and `c` is `b` with `x` added, then `c` equals `b` — and `b`
/// already holds `x`, so the second addition reports no change.
pub proof fn law_add_idempotent(a: Seq<u32>, b: Seq<u32>, c: Seq<u32>, x: u32)
    requires
        sorted32(a),
        sorted32(b),
        sorted32(c),
        forall|n: u32| #[trigger] b.contains(n) == (a.contains(n) || n == x),
        forall|n: u32| #[trigger] c.contains(n) == (b.contains(n) || n == x),
    ensures
        c == b,
        b.contains(x),
{
    assert(b.contains(x) == (a.contains(x) || x == x));
    assert forall|n: u32| c.contains(n) <==> b.contains(n) by {
        assert(c.contains(n) == (b.contains(n) || n == x));
        assert(b.contains(n) == (a.contains(n) || n == x));
    }
    lemma_sorted32_equal(c, b);
}

/// Removing an element right after adding it restores the set, provided the
/// element was absent to begin with: if `x` is not in `a`, `b` is `a` with
/// `x` added and `c` is `b` with `x` removed, then `c` equals `a`.
pub proof fn law_add_then_remove(a: Seq<u32>, b: Seq<u32>, c: Seq<u32>, x: u32)
    requires
        sorted32(a),
        sorted32(b),
        sorted32(c),
        !a.contains(x),
        forall|n: u32| #[trigger] b.contains(n) == (a.contains(n) || n == x),
        forall|n: u32| #[trigger] c.contains(n) == (b.contains(n) && n != x),
    ensures
        c == a,
{
    assert forall|n: u32| c.contains(n) <==> a.contains(n) by {
        assert(c.contains(n) == (b.contains(n) && n != x));
        assert(b.contains(n) == (a.contains(n) || n == x));
    }
    lemma_sorted32_equal(c, a);
}

/// A union result is the set-theoretic union of its operands.
pub proof fn law_union_set(a: Seq<u32>, b: Seq<u32>, u: Seq<u32>)
    requires
        forall|n: u32| #[trigger] u.contains(n) == (a.contains(n) || b.contains(n)),
    ensures
        u.to_set() == a.to_set().union(b.to_set()),
{
    assert(u.to_set() =~= a.to_set().union(b.to_set()));
}

/// An intersection result is the set-theoretic intersection of its operands.
pub proof fn law_intersection_set(a: Seq<u32>, b: Seq<u32>, i: Seq<u32>)
    requires
        forall|n: u32| #[trigger] i.contains(n) == (a.contains(n) && b.contains(n)),
    ensures
        i.to_set() == a.to_set().intersect(b.to_set()),
{
    assert(i.to_set() =~= a.to_set().intersect(b.to_set()));
}

/// A difference result is the set-theoretic difference of its operands.
pub proof fn law_difference_set(a: Seq<u32>, b: Seq<u32>, d: Seq<u32>)
    requires
        forall|n: u32| #[trigger] d.contains(n) == (a.contains(n) && !b.contains(n)),
    ensures
        d.to_set() == a.to_set().difference(b.to_set()),
{
    assert(d.to_set() =~= a.to_set().difference(b.to_set()));
}

/// A symmetric-difference result is the union of the operands minus their
/// intersection.
pub proof fn law_symmetric_difference_set(a: Seq<u32>, b: Seq<u32>, s: Seq<u32>)
    requires
        forall|n: u32| #[trigger] s.contains(n) == (a.contains(n) != b.contains(n)),
    ensures
        s.to_set() == a.to_set().union(b.to_set()).difference(
            a.to_set().intersect(b.to_set()),
        ),
{
    assert(s.to_set() =~= a.to_set().union(b.to_set()).difference(
        a.to_set().intersect(b.to_set()),
    ));
}

/// Inclusion, union and intersection characterize one another: `a` is
/// included in `b` exactly when their union is `b`, exactly when their
/// intersection is `a`.
pub proof fn law_subset_characterization(a: Seq<u32>, b: Seq<u32>, u: Seq<u32>, i: Seq<u32>)
    requires
        sorted32(a),
        sorted32(b),
        sorted32(u),
        sorted32(i),
        forall|n: u32| #[trigger] u.contains(n) == (a.contains(n) || b.contains(n)),
        forall|n: u32| #[trigger] i.contains(n) == (a.contains(n) && b.contains(n)),
    ensures
        subset_of(a, b) <==> (u == b),
        subset_of(a, b) <==> (i == a),
{
    if subset_of(a, b) {
        assert forall|n: u32| u.contains(n) <==> b.contains(n) by {
            assert(u.contains(n) == (a.contains(n) || b.contains(n)));
        }
        lemma_sorted32_equal(u, b);
        assert forall|n: u32| i.contains(n) <==> a.contains(n) by {
            assert(i.contains(n) == (a.contains(n) && b.contains(n)));
        }
        lemma_sorted32_equal(i, a);
    }
    if u == b {
        assert forall|n: u32| a.contains(n) implies b.contains(n) by {
            assert(u.contains(n) == (a.contains(n) || b.contains(n)));
        }
    }
    if i == a {
        assert forall|n: u32| a.contains(n) implies b.contains(n) by {
            assert(i.contains(n) == (a.contains(n) && b.contains(n)));
        }
    }
}

/// Two sets share an element exactly when their intersection is non-empty.
pub proof fn law_intersects_nonempty(a: Seq<u32>, b: Seq<u32>, i: Seq<u32>)
    requires
        forall|n: u32| #[trigger] i.contains(n) == (a.contains(n) && b.contains(n)),
    ensures
        (exists|n: u32| a.contains(n) && b.contains(n)) <==> i.len() > 0,
{
    if exists|n: u32| a.contains(n) && b.contains(n) {
        let n = choose|n: u32| a.contains(n) && b.contains(n);
        assert(i.contains(n));
    }
    if i.len() > 0 {
        let x = i[0];
        assert(i.contains(x)) by {
            assert(i[0] == x);
        }
        assert(a.contains(x) && b.contains(x));
    }
}

/// Representation invariance: a sparse container and a dense container that
/// hold the same members enumerate the same sequence, so results of the set
/// algebra do not depend on which representation held the operands.
pub proof fn law_representation_invariance(a: &ArrayContainer, b: &BitmapContainer)
    requires
        a.wf(),
        b.wf(),
        forall|v: u16| #[trigger] a.contains_spec(v) == b.contains_spec(v),
    ensures
        a.elems() == b.elems(),
{
    b.lemma_contains_elems();
    assert forall|v: u16| a.elems().contains(v) <==> b.elems().contains(v) by {
        assert(a.contains_spec(v) == b.contains_spec(v));
    }
    lemma_sorted16_equal(a.elems(), b.elems());
}

} // verus!
