//! Specification vocabulary for sorted sequences.
//!
//! Every structure in this crate is modelled by a strictly ascending sequence
//! of its elements. The lemmas here let the rest of the crate move between
//! membership facts and sequence equality: two strictly ascending sequences
//! with the same members are the same sequence.

use vstd::prelude::*;

verus! {

/// Strictly ascending: sorted with no duplicates.
pub open spec fn sorted16(s: Seq<u16>) -> bool {
    forall|i: int, j: int| 0 <= i < j < s.len() ==> s[i] < s[j]
}

/// Strictly ascending: sorted with no duplicates.
pub open spec fn sorted32(s: Seq<u32>) -> bool {
    forall|i: int, j: int| 0 <= i < j < s.len() ==> s[i] < s[j]
}

/// Number of entries that do not exceed `v`.
pub open spec fn count_le16(s: Seq<u16>, v: u16) -> int
    decreases s.len(),
{
    if s.len() == 0 {
        0
    } else {
        count_le16(s.drop_last(), v) + if s.last() <= v {
            1int
        } else {
            0int
        }
    }
}

/// Number of entries that do not exceed `v`.
pub open spec fn count_le32(s: Seq<u32>, v: u32) -> int
    decreases s.len(),
{
    if s.len() == 0 {
        0
    } else {
        count_le32(s.drop_last(), v) + if s.last() <= v {
            1int
        } else {
            0int
        }
    }
}

pub proof fn lemma_push_contains<A>(s: Seq<A>, x: A, y: A)
    ensures
        s.push(x).contains(y) <==> (s.contains(y) || x == y),
{
    if s.contains(y) {
        let i = choose|i: int| 0 <= i < s.len() && s[i] == y;
        assert(s.push(x)[i] == y);
    }
    if x == y {
        assert(s.push(x)[s.len() as int] == y);
    }
    if s.push(x).contains(y) {
        let i = choose|i: int| 0 <= i < s.push(x).len() && s.push(x)[i] == y;
        if i < s.len() {
            assert(s[i] == y);
        }
    }
}

pub proof fn lemma_sorted16_index_lb(s: Seq<u16>, j: int)
    requires
        sorted16(s),
        0 <= j < s.len(),
    ensures
        s[j] >= s[0] + j,
    decreases j,
{
    if j > 0 {
        lemma_sorted16_index_lb(s, j - 1);
    }
}

/// A strictly ascending sequence of 16-bit values has at most 65,536 entries.
pub proof fn lemma_sorted16_len(s: Seq<u16>)
    requires
        sorted16(s),
    ensures
        s.len() <= 0x10000,
{
    if s.len() > 0x10000 {
        lemma_sorted16_index_lb(s, 0x10000);
    }
}

/// In a sorted sequence every member lies between the first and last entries.
pub proof fn lemma_sorted16_member_bounds(s: Seq<u16>, v: u16)
    requires
        sorted16(s),
        s.contains(v),
    ensures
        s.len() > 0,
        s[0] <= v <= s.last(),
{
    let i = choose|i: int| 0 <= i < s.len() && s[i] == v;
    if i > 0 {
        assert(s[0] < s[i]);
    }
    if i < s.len() - 1 {
        assert(s[i] < s[s.len() - 1]);
    }
}

/// In a sorted sequence every member lies between the first and last entries.
pub proof fn lemma_sorted32_member_bounds(s: Seq<u32>, v: u32)
    requires
        sorted32(s),
        s.contains(v),
    ensures
        s.len() > 0,
        s[0] <= v <= s.last(),
{
    let i = choose|i: int| 0 <= i < s.len() && s[i] == v;
    if i > 0 {
        assert(s[0] < s[i]);
    }
    if i < s.len() - 1 {
        assert(s[i] < s[s.len() - 1]);
    }
}

proof fn lemma_sorted16_skip_contains(s: Seq<u16>, v: u16)
    requires
        sorted16(s),
        s.len() > 0,
    ensures
        s.skip(1).contains(v) <==> (s.contains(v) && v != s[0]),
{
    if s.skip(1).contains(v) {
        let i = choose|i: int| 0 <= i < s.skip(1).len() && s.skip(1)[i] == v;
        assert(s[i + 1] == v);
        assert(s[0] < s[i + 1]);
    }
    if s.contains(v) && v != s[0] {
        let i = choose|i: int| 0 <= i < s.len() && s[i] == v;
        assert(s.skip(1)[i - 1] == v);
    }
}

/// Two strictly ascending sequences with the same members are equal.
pub proof fn lemma_sorted16_equal(s1: Seq<u16>, s2: Seq<u16>)
    requires
        sorted16(s1),
        sorted16(s2),
        forall|v: u16| s1.contains(v) <==> s2.contains(v),
    ensures
        s1 == s2,
    decreases s1.len(),
{
    if s1.len() == 0 {
        if s2.len() > 0 {
            assert(s2.contains(s2[0]));
        }
        assert(s1 =~= s2);
    } else {
        assert(s1.contains(s1[0]));
        assert(s2.contains(s2[0]));
        lemma_sorted16_member_bounds(s2, s1[0]);
        lemma_sorted16_member_bounds(s1, s2[0]);
        assert(s1[0] == s2[0]);
        assert forall|v: u16| s1.skip(1).contains(v) <==> s2.skip(1).contains(v) by {
            lemma_sorted16_skip_contains(s1, v);
            lemma_sorted16_skip_contains(s2, v);
        }
        lemma_sorted16_equal(s1.skip(1), s2.skip(1));
        assert forall|i: int| 0 <= i < s1.len() implies s1[i] == s2[i] by {
            if i > 0 {
                assert(s1.skip(1)[i - 1] == s2.skip(1)[i - 1]);
            }
        }
        assert(s1 =~= s2);
    }
}

proof fn lemma_sorted32_skip_contains(s: Seq<u32>, v: u32)
    requires
        sorted32(s),
        s.len() > 0,
    ensures
        s.skip(1).contains(v) <==> (s.contains(v) && v != s[0]),
{
    if s.skip(1).contains(v) {
        let i = choose|i: int| 0 <= i < s.skip(1).len() && s.skip(1)[i] == v;
        assert(s[i + 1] == v);
        assert(s[0] < s[i + 1]);
    }
    if s.contains(v) && v != s[0] {
        let i = choose|i: int| 0 <= i < s.len() && s[i] == v;
        assert(s.skip(1)[i - 1] == v);
    }
}

/// Two strictly ascending sequences with the same members are equal.
pub proof fn lemma_sorted32_equal(s1: Seq<u32>, s2: Seq<u32>)
    requires
        sorted32(s1),
        sorted32(s2),
        forall|v: u32| s1.contains(v) <==> s2.contains(v),
    ensures
        s1 == s2,
    decreases s1.len(),
{
    if s1.len() == 0 {
        if s2.len() > 0 {
            assert(s2.contains(s2[0]));
        }
        assert(s1 =~= s2);
    } else {
        assert(s1.contains(s1[0]));
        assert(s2.contains(s2[0]));
        lemma_sorted32_member_bounds(s2, s1[0]);
        lemma_sorted32_member_bounds(s1, s2[0]);
        assert(s1[0] == s2[0]);
        assert forall|v: u32| s1.skip(1).contains(v) <==> s2.skip(1).contains(v) by {
            lemma_sorted32_skip_contains(s1, v);
            lemma_sorted32_skip_contains(s2, v);
        }
        lemma_sorted32_equal(s1.skip(1), s2.skip(1));
        assert forall|i: int| 0 <= i < s1.len() implies s1[i] == s2[i] by {
            if i > 0 {
                assert(s1.skip(1)[i - 1] == s2.skip(1)[i - 1]);
            }
        }
        assert(s1 =~= s2);
    }
}

/// In a sorted sequence, `count_le` is the index of the first entry above `v`.
pub proof fn lemma_sorted16_count_le(s: Seq<u16>, v: u16, p: int)
    requires
        sorted16(s),
        0 <= p <= s.len(),
        forall|i: int| 0 <= i < p ==> s[i] <= v,
        forall|i: int| p <= i < s.len() ==> s[i] > v,
    ensures
        count_le16(s, v) == p,
    decreases s.len(),
{
    if s.len() > 0 {
        if s.last() <= v {
            assert(p == s.len());
            lemma_sorted16_count_le(s.drop_last(), v, p - 1);
        } else {
            assert(p < s.len());
            lemma_sorted16_count_le(s.drop_last(), v, p);
        }
    }
}

/// In a sorted sequence, `count_le` is the index of the first entry above `v`.
pub proof fn lemma_sorted32_count_le(s: Seq<u32>, v: u32, p: int)
    requires
        sorted32(s),
        0 <= p <= s.len(),
        forall|i: int| 0 <= i < p ==> s[i] <= v,
        forall|i: int| p <= i < s.len() ==> s[i] > v,
    ensures
        count_le32(s, v) == p,
    decreases s.len(),
{
    if s.len() > 0 {
        if s.last() <= v {
            assert(p == s.len());
            lemma_sorted32_count_le(s.drop_last(), v, p - 1);
        } else {
            assert(p < s.len());
            lemma_sorted32_count_le(s.drop_last(), v, p);
        }
    }
}

pub proof fn lemma_count_le16_bounds(s: Seq<u16>, v: u16)
    ensures
        0 <= count_le16(s, v) <= s.len(),
    decreases s.len(),
{
    if s.len() > 0 {
        lemma_count_le16_bounds(s.drop_last(), v);
    }
}

/// `count_le` distributes over concatenation.
pub proof fn lemma_count_le32_concat(a: Seq<u32>, b: Seq<u32>, v: u32)
    ensures
        count_le32(a + b, v) == count_le32(a, v) + count_le32(b, v),
    decreases b.len(),
{
    if b.len() == 0 {
        assert(a + b =~= a);
    } else {
        assert((a + b).drop_last() =~= a + b.drop_last());
        assert((a + b).last() == b.last());
        lemma_count_le32_concat(a, b.drop_last(), v);
    }
}

/// Membership in a concatenation is membership in either part.
pub proof fn lemma_concat_contains<A>(a: Seq<A>, b: Seq<A>, x: A)
    ensures
        (a + b).contains(x) == (a.contains(x) || b.contains(x)),
{
    if (a + b).contains(x) {
        let i = choose|i: int| 0 <= i < (a + b).len() && (a + b)[i] == x;
        if i < a.len() {
            assert(a[i] == x);
        } else {
            assert(b[i - a.len()] == x);
        }
    }
    if a.contains(x) {
        let i = choose|i: int| 0 <= i < a.len() && a[i] == x;
        assert((a + b)[i] == x);
    }
    if b.contains(x) {
        let i = choose|i: int| 0 <= i < b.len() && b[i] == x;
        assert((a + b)[a.len() + i] == x);
    }
}

/// Concatenating a sorted sequence with a sorted sequence of larger values
/// gives a sorted sequence.
pub proof fn lemma_sorted32_concat(a: Seq<u32>, b: Seq<u32>)
    requires
        sorted32(a),
        sorted32(b),
        forall|i: int, j: int| 0 <= i < a.len() && 0 <= j < b.len() ==> a[i] < b[j],
    ensures
        sorted32(a + b),
{
    assert forall|i: int, j: int| 0 <= i < j < (a + b).len() implies (a + b)[i] < (a + b)[j] by {
        if i < a.len() && j >= a.len() {
            assert((a + b)[i] == a[i]);
            assert((a + b)[j] == b[j - a.len()]);
        }
    }
}

} // verus!
