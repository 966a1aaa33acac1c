//! Bit-level model of possibility masks.
//!
//! A possibility mask is a `u64` bitset over color identifiers: bit `c` set
//! means color `c` is still possible at the cell.  Exactly one bit set means
//! the cell is determined; zero means a contradiction.

use vstd::prelude::*;

verus! {

/// Color `c` is still possible under `mask`.
pub open spec fn color_allowed(mask: u64, c: int) -> bool {
    0 <= c < 64 && mask & (1u64 << c as u64) != 0
}

/// `mask` has exactly one bit set, i.e. the cell is determined.
pub open spec fn spec_single_bit(mask: u64) -> bool {
    mask != 0 && mask & ((mask - 1) as u64) == 0
}

/// Bits of a union: a color is possible under `a | b` iff it is possible
/// under `a` or under `b`.
pub proof fn lemma_or_bit(a: u64, b: u64, c: u64)
    by (bit_vector)
    requires
        c < 64,
    ensures
        ((a | b) & (1u64 << c) != 0) <==> (a & (1u64 << c) != 0) || (b & (1u64 << c) != 0),
{
}

/// Bits of an intersection: a color is possible under `a & b` iff it is
/// possible under both `a` and `b`.
pub proof fn lemma_and_bit(a: u64, b: u64, c: u64)
    by (bit_vector)
    requires
        c < 64,
    ensures
        ((a & b) & (1u64 << c) != 0) <==> (a & (1u64 << c) != 0) && (b & (1u64 << c) != 0),
{
}

/// A one-bit mask allows exactly its own color.
pub proof fn lemma_shift_bit(c: u64, d: u64)
    by (bit_vector)
    requires
        c < 64,
        d < 64,
    ensures
        ((1u64 << c) & (1u64 << d) != 0) <==> c == d,
{
}

/// The zero mask allows no color at all.
pub proof fn lemma_zero_bit(c: u64)
    by (bit_vector)
    requires
        c < 64,
    ensures
        0u64 & (1u64 << c) == 0,
{
}

/// Two masks that agree on every bit are equal.
pub proof fn lemma_mask_ext(a: u64, b: u64)
    requires
        forall|c: u64| c < 64 ==> ((a & (1u64 << c) != 0) <==> (b & (1u64 << c) != 0)),
    ensures
        a == b,
{
    if a != b {
        let d: u64 = a ^ b;
        assert(d != 0) by (bit_vector)
            requires
                a != b,
                d == a ^ b,
        ;
        vstd::std_specs::bits::axiom_u64_trailing_zeros(d);
        let c: u64 = vstd::std_specs::bits::u64_trailing_zeros(d) as u64;
        assert(false) by (bit_vector)
            requires
                d == a ^ b,
                c < 64,
                (d >> c) & 1u64 == 1u64,
                (a & (1u64 << c) != 0) <==> (b & (1u64 << c) != 0),
        ;
    }
}

/// `color_allowed` restated over the union of two masks.
pub proof fn lemma_or_allowed(a: u64, b: u64, c: int)
    ensures
        color_allowed(a | b, c) <==> color_allowed(a, c) || color_allowed(b, c),
{
    if 0 <= c < 64 {
        lemma_or_bit(a, b, c as u64);
    }
}

/// `color_allowed` restated over the intersection of two masks.
pub proof fn lemma_and_allowed(a: u64, b: u64, c: int)
    ensures
        color_allowed(a & b, c) <==> color_allowed(a, c) && color_allowed(b, c),
{
    if 0 <= c < 64 {
        lemma_and_bit(a, b, c as u64);
    }
}

/// Setting one bit: the union with a one-bit mask allows the old colors and
/// that bit's color, nothing else.
pub proof fn lemma_or_single_allowed(mask: u64, color: int, c: int)
    requires
        0 <= color < 64,
    ensures
        color_allowed(mask | (1u64 << color as u64), c)
            <==> (color_allowed(mask, c) || c == color),
{
    lemma_or_allowed(mask, 1u64 << color as u64, c);
    if 0 <= c < 64 {
        lemma_shift_bit(color as u64, c as u64);
    }
}

/// Every color of `a` is also a color of `b`.
pub open spec fn mask_subset(a: u64, b: u64) -> bool {
    a & b == a
}

/// A subset mask only has bits its superset has.
pub proof fn lemma_mask_subset_bit(a: u64, b: u64, c: u64)
    by (bit_vector)
    requires
        a & b == a,
        c < 64,
    ensures
        (a & (1u64 << c) != 0) ==> (b & (1u64 << c) != 0),
{
}

/// A mask whose every bit is a bit of `b` is a subset of `b`.
pub proof fn lemma_mask_subset_from_bits(a: u64, b: u64)
    requires
        forall|c: u64| c < 64 ==> ((a & (1u64 << c) != 0) ==> (b & (1u64 << c) != 0)),
    ensures
        mask_subset(a, b),
{
    if a & b != a {
        let d: u64 = (a & b) ^ a;
        assert(d != 0) by (bit_vector)
            requires
                a & b != a,
                d == (a & b) ^ a,
        ;
        vstd::std_specs::bits::axiom_u64_trailing_zeros(d);
        let c: u64 = vstd::std_specs::bits::u64_trailing_zeros(d) as u64;
        assert(false) by (bit_vector)
            requires
                d == (a & b) ^ a,
                c < 64,
                (d >> c) & 1u64 == 1u64,
                (a & (1u64 << c) != 0) ==> (b & (1u64 << c) != 0),
        ;
    }
}

/// A subset mask is numerically no larger.
pub proof fn lemma_mask_subset_le(a: u64, b: u64)
    by (bit_vector)
    requires
        a & b == a,
    ensures
        a <= b,
{
}

/// Every mask is a subset of itself.
pub proof fn lemma_mask_subset_refl(a: u64)
    by (bit_vector)
    ensures
        a & a == a,
{
}

/// Two masks that are subsets of each other are equal.
pub proof fn lemma_mask_subset_antisym(a: u64, b: u64)
    by (bit_vector)
    requires
        a & b == a,
        b & a == b,
    ensures
        a == b,
{
}

/// The subset relation on masks is transitive.
pub proof fn lemma_mask_subset_trans(a: u64, b: u64, c: u64)
    by (bit_vector)
    requires
        a & b == a,
        b & c == b,
    ensures
        a & c == a,
{
}

/// An intersection is a subset of both of its operands.
pub proof fn lemma_and_subset(a: u64, b: u64)
    by (bit_vector)
    ensures
        mask_subset(a & b, a),
        mask_subset(a & b, b),
{
}

} // verus!
