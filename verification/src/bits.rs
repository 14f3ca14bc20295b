//! Bit-level vocabulary for 64-bit words.
//!
//! A dense container stores 65,536 bits as 1,024 words. The spec functions
//! here read a single bit and count set bits below a position; the lemmas
//! state how the bitwise operators act on individual bits.

use vstd::prelude::*;

verus! {

/// Bit `i` of `w`, for `i < 64`.
pub open spec fn bit64(w: u64, i: u64) -> bool {
    (w >> i) & 1u64 == 1u64
}

/// Number of set bits of `w` at positions below `n`.
pub open spec fn count_upto(w: u64, n: int) -> int
    decreases n,
{
    if n <= 0 {
        0
    } else {
        count_upto(w, n - 1) + if bit64(w, (n - 1) as u64) {
            1int
        } else {
            0int
        }
    }
}

pub proof fn lemma_count_upto_bounds(w: u64, n: int)
    requires
        0 <= n <= 64,
    ensures
        0 <= count_upto(w, n) <= n,
    decreases n,
{
    if n > 0 {
        lemma_count_upto_bounds(w, n - 1);
    }
}

/// Number of set bits of a word.
pub fn popcount64(w: u64) -> (c: usize)
    ensures
        c == count_upto(w, 64),
{
    let mut c: usize = 0;
    let mut i: u64 = 0;
    while i < 64
        invariant
            0 <= i <= 64,
            c == count_upto(w, i as int),
            c <= i,
        decreases 64 - i,
    {
        if ((w >> i) & 1u64) == 1u64 {
            c = c + 1;
        }
        i = i + 1;
    }
    c
}

pub proof fn lemma_bit_or(a: u64, b: u64)
    ensures
        forall|i: u64| i < 64 ==> #[trigger] bit64(a | b, i) == (bit64(a, i) || bit64(b, i)),
{
    assert forall|i: u64| i < 64 implies #[trigger] bit64(a | b, i) == (bit64(a, i) || bit64(
        b,
        i,
    )) by {
        assert((((a | b) >> i) & 1u64 == 1u64) == (((a >> i) & 1u64 == 1u64) || ((b >> i) & 1u64
            == 1u64))) by (bit_vector);
    }
}

pub proof fn lemma_bit_and(a: u64, b: u64)
    ensures
        forall|i: u64| i < 64 ==> #[trigger] bit64(a & b, i) == (bit64(a, i) && bit64(b, i)),
{
    assert forall|i: u64| i < 64 implies #[trigger] bit64(a & b, i) == (bit64(a, i) && bit64(
        b,
        i,
    )) by {
        assert((((a & b) >> i) & 1u64 == 1u64) == (((a >> i) & 1u64 == 1u64) && ((b >> i) & 1u64
            == 1u64))) by (bit_vector);
    }
}

pub proof fn lemma_bit_xor(a: u64, b: u64)
    ensures
        forall|i: u64| i < 64 ==> #[trigger] bit64(a ^ b, i) == (bit64(a, i) != bit64(b, i)),
{
    assert forall|i: u64| i < 64 implies #[trigger] bit64(a ^ b, i) == (bit64(a, i) != bit64(
        b,
        i,
    )) by {
        assert((((a ^ b) >> i) & 1u64 == 1u64) == (((a >> i) & 1u64 == 1u64) != ((b >> i) & 1u64
            == 1u64))) by (bit_vector);
    }
}

pub proof fn lemma_bit_andnot(a: u64, b: u64)
    ensures
        forall|i: u64| i < 64 ==> #[trigger] bit64(a & !b, i) == (bit64(a, i) && !bit64(b, i)),
{
    assert forall|i: u64| i < 64 implies #[trigger] bit64(a & !b, i) == (bit64(a, i) && !bit64(
        b,
        i,
    )) by {
        assert((((a & !b) >> i) & 1u64 == 1u64) == (((a >> i) & 1u64 == 1u64) && !((b >> i) & 1u64
            == 1u64))) by (bit_vector);
    }
}

/// Setting bit `b` leaves every other bit unchanged.
pub proof fn lemma_bit_set(a: u64, b: u64)
    requires
        b < 64,
    ensures
        bit64(a | (1u64 << b), b),
        forall|i: u64| i < 64 && i != b ==> #[trigger] bit64(a | (1u64 << b), i) == bit64(a, i),
        bit64(a, b) ==> a | (1u64 << b) == a,
{
    assert(((a | (1u64 << b)) >> b) & 1u64 == 1u64) by (bit_vector)
        requires
            b < 64,
    ;
    assert forall|i: u64| i < 64 && i != b implies #[trigger] bit64(a | (1u64 << b), i) == bit64(
        a,
        i,
    ) by {
        assert((((a | (1u64 << b)) >> i) & 1u64) == ((a >> i) & 1u64)) by (bit_vector)
            requires
                i < 64 && b < 64 && i != b,
        ;
    }
    assert(((a >> b) & 1u64 == 1u64) ==> a | (1u64 << b) == a) by (bit_vector)
        requires
            b < 64,
    ;
}

/// Clearing bit `b` leaves every other bit unchanged.
pub proof fn lemma_bit_clear(a: u64, b: u64)
    requires
        b < 64,
    ensures
        !bit64(a & !(1u64 << b), b),
        forall|i: u64| i < 64 && i != b ==> #[trigger] bit64(a & !(1u64 << b), i) == bit64(a, i),
{
    assert(((a & !(1u64 << b)) >> b) & 1u64 != 1u64) by (bit_vector)
        requires
            b < 64,
    ;
    assert forall|i: u64| i < 64 && i != b implies #[trigger] bit64(a & !(1u64 << b), i) == bit64(
        a,
        i,
    ) by {
        assert((((a & !(1u64 << b)) >> i) & 1u64) == ((a >> i) & 1u64)) by (bit_vector)
            requires
                i < 64 && b < 64 && i != b,
        ;
    }
}

pub proof fn lemma_zero_word(i: u64)
    requires
        i < 64,
    ensures
        !bit64(0u64, i),
{
    assert((0u64 >> i) & 1u64 != 1u64) by (bit_vector);
}

/// A word other than zero has a set bit.
pub proof fn lemma_nonzero_has_bit(w: u64)
    requires
        w != 0,
    ensures
        exists|i: u64| i < 64 && #[trigger] bit64(w, i),
{
    vstd::std_specs::bits::axiom_u64_trailing_zeros(w);
    let t = vstd::std_specs::bits::u64_trailing_zeros(w) as u64;
    assert(bit64(w, t));
}

} // verus!
